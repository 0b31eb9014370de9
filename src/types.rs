//! Hyperparameters, the ledger that supplies them, annotators that record
//! ranks, and small helpers for drawing by frequency.

use std::collections::HashMap;
use std::hash::Hash;
use crate::walk::draw_below;
use rand_xorshift::XorShiftRng;
use vstd::prelude::*;

verus! {

/// A weight as the fraction `numer / denom`.
#[derive(Debug, Clone, Copy, PartialEq, Eq, Structural)]
pub struct Weight {
    pub numer: u32,
    pub denom: u32,
}

/// The greatest common divisor, by Euclid's algorithm.
pub open spec fn gcd(a: nat, b: nat) -> nat
    decreases b,
{
    if b == 0 {
        a
    } else {
        gcd(b, a % b)
    }
}

proof fn lemma_multiple_mod(k: int, d: int)
    requires
        d > 0,
    ensures
        (d * k) % d == 0,
{
    assert((k * d) % d == 0) by {
        vstd::arithmetic::div_mod::lemma_mod_multiples_basic(k, d);
    }
    assert(d * k == k * d) by (nonlinear_arith);
}

proof fn lemma_gcd_divides(a: nat, b: nat)
    ensures
        gcd(a, b) == 0 <==> a == 0 && b == 0,
        gcd(a, b) > 0 ==> a % gcd(a, b) == 0 && b % gcd(a, b) == 0,
    decreases b,
{
    if b == 0 {
        if a > 0 {
            lemma_multiple_mod(1, a as int);
        }
    } else {
        let r = a % b;
        lemma_gcd_divides(b, r);
        let g = gcd(b, r);
        assert(g > 0);
        vstd::arithmetic::div_mod::lemma_fundamental_div_mod(b as int, g as int);
        vstd::arithmetic::div_mod::lemma_fundamental_div_mod(r as int, g as int);
        vstd::arithmetic::div_mod::lemma_fundamental_div_mod(a as int, b as int);
        let kb = b as int / g as int;
        let kr = r as int / g as int;
        let q = a as int / b as int;
        assert(a == g * (kb * q + kr)) by (nonlinear_arith)
            requires
                b == g * kb,
                r == g * kr,
                a == b * q + r;
        lemma_multiple_mod(kb * q + kr, g as int);
    }
}

proof fn lemma_gcd_greatest(a: nat, b: nat, d: int)
    requires
        d > 0,
        (a as int) % d == 0,
        (b as int) % d == 0,
    ensures
        (gcd(a, b) as int) % d == 0,
    decreases b,
{
    if b > 0 {
        let r = a % b;
        vstd::arithmetic::div_mod::lemma_fundamental_div_mod(a as int, d);
        vstd::arithmetic::div_mod::lemma_fundamental_div_mod(b as int, d);
        vstd::arithmetic::div_mod::lemma_fundamental_div_mod(a as int, b as int);
        let ka = a as int / d;
        let kb = b as int / d;
        let q = a as int / b as int;
        assert(r == d * (ka - kb * q)) by (nonlinear_arith)
            requires
                a == d * ka,
                b == d * kb,
                a == b * q + r;
        lemma_multiple_mod(ka - kb * q, d);
        lemma_gcd_greatest(b, r, d);
    }
}

proof fn lemma_reduced(a: nat, b: nat, d: int)
    requires
        gcd(a, b) > 0,
        d > 1,
    ensures
        !(((a / gcd(a, b)) as int) % d == 0 && ((b / gcd(a, b)) as int) % d == 0),
{
    if !(((a / gcd(a, b)) as int) % d == 0 && ((b / gcd(a, b)) as int) % d == 0) {
        return;
    }
    let g = gcd(a, b) as int;
    lemma_gcd_divides(a, b);
    vstd::arithmetic::div_mod::lemma_fundamental_div_mod(a as int, g);
    vstd::arithmetic::div_mod::lemma_fundamental_div_mod(b as int, g);
    let n = a as int / g;
    let m = b as int / g;
    vstd::arithmetic::div_mod::lemma_fundamental_div_mod(n, d);
    vstd::arithmetic::div_mod::lemma_fundamental_div_mod(m, d);
    let gd = g * d;
    assert(gd > 0) by (nonlinear_arith)
        requires
            g > 0,
            d > 1,
            gd == g * d;
    assert(a == gd * (n / d)) by (nonlinear_arith)
        requires
            a == g * n,
            n == d * (n / d),
            gd == g * d;
    assert(b == gd * (m / d)) by (nonlinear_arith)
        requires
            b == g * m,
            m == d * (m / d),
            gd == g * d;
    lemma_multiple_mod(n / d, gd);
    lemma_multiple_mod(m / d, gd);
    lemma_gcd_greatest(a, b, gd);
    vstd::arithmetic::div_mod::lemma_fundamental_div_mod(g, gd);
    let k = g / gd;
    assert(false) by (nonlinear_arith)
        requires
            g == gd * k,
            g > 0,
            gd == g * d,
            d > 1;
}

/// Euclid's algorithm on machine integers.
fn gcd_u32(a: u32, b: u32) -> (r: u32)
    ensures
        r == gcd(a as nat, b as nat),
{
    let mut x = a;
    let mut y = b;
    while y != 0
        invariant
            gcd(x as nat, y as nat) == gcd(a as nat, b as nat),
        decreases y,
    {
        let t = x % y;
        x = y;
        y = t;
    }
    x
}

impl Weight {
    /// The fraction `numerator / denominator` in lowest terms, so that `==`
    /// compares weights by value; `0 / 0` stays as it is.
    pub fn new(numerator: u32, denominator: u32) -> (r: Weight)
        ensures
            r.numer * denominator == numerator * r.denom,
            numerator > 0 || denominator > 0 ==> forall|d: int|
                d > 1 ==> !(#[trigger] ((r.numer as int) % d) == 0 && (r.denom as int) % d == 0),
            denominator > 0 ==> r.denom > 0,
            numerator == 0 && denominator == 0 ==> r.numer == 0 && r.denom == 0,
    {
        let g = gcd_u32(numerator, denominator);
        proof {
            lemma_gcd_divides(numerator as nat, denominator as nat);
        }
        if g == 0 {
            return Weight { numer: 0, denom: 0 };
        }
        let n = numerator / g;
        let m = denominator / g;
        proof {
            vstd::arithmetic::div_mod::lemma_fundamental_div_mod(numerator as int, g as int);
            vstd::arithmetic::div_mod::lemma_fundamental_div_mod(denominator as int, g as int);
            assert(n * denominator == numerator * m) by (nonlinear_arith)
                requires
                    numerator == g * n,
                    denominator == g * m;
            assert forall|d: int| d > 1 implies !(#[trigger] ((n as int) % d) == 0 && (m as int) % d == 0) by {
                lemma_reduced(numerator as nat, denominator as nat, d);
            }
            if denominator > 0 {
                assert(m > 0) by (nonlinear_arith)
                    requires
                        denominator == g * m,
                        denominator > 0,
                        g > 0;
            }
        }
        Weight { numer: n, denom: m }
    }

    /// The weight lies in `(0, 1]`.
    pub open spec fn in_unit_interval(&self) -> bool {
        self.denom > 0 && 0 < self.numer <= self.denom
    }
}

/// The weights of the five kinds of edges.
#[derive(Debug, Clone, Copy, PartialEq, Eq, Structural)]
pub struct HyperParams {
    pub contrib_factor: Weight,
    pub contrib_prime_factor: Weight,
    pub depend_factor: Weight,
    pub maintain_factor: Weight,
    pub maintain_prime_factor: Weight,
}

/// Failures of hyperparameter checks.
#[derive(Debug, Clone, Copy, PartialEq, Eq, Structural)]
pub enum HyperParamError {
    /// A factor lies outside `(0, 1]`.
    InvalidHyperparam,
}

impl HyperParams {
    /// Every factor lies in `(0, 1]`.
    pub open spec fn valid(&self) -> bool {
        &&& self.contrib_factor.in_unit_interval()
        &&& self.contrib_prime_factor.in_unit_interval()
        &&& self.depend_factor.in_unit_interval()
        &&& self.maintain_factor.in_unit_interval()
        &&& self.maintain_prime_factor.in_unit_interval()
    }

    /// Checks that every factor lies in `(0, 1]`.
    pub fn check(&self) -> (r: Result<(), HyperParamError>)
        ensures
            r is Ok <==> self.valid(),
            r is Err ==> r == Err::<(), HyperParamError>(HyperParamError::InvalidHyperparam),
    {
        if in_unit_interval(&self.contrib_factor) && in_unit_interval(&self.contrib_prime_factor)
            && in_unit_interval(&self.depend_factor) && in_unit_interval(&self.maintain_factor)
            && in_unit_interval(&self.maintain_prime_factor) {
            Ok(())
        } else {
            Err(HyperParamError::InvalidHyperparam)
        }
    }
}

fn in_unit_interval(w: &Weight) -> (r: bool)
    ensures
        r == w.in_unit_interval(),
{
    w.denom > 0 && 0 < w.numer && w.numer <= w.denom
}

/// The values of the paper: `1/7, 2/5, 4/7, 2/7, 3/5` for contribution,
/// contribution back, dependency, maintenance and maintenance back.
impl Default for HyperParams {
    fn default() -> (r: HyperParams)
        ensures
            r.contrib_factor == (Weight { numer: 1, denom: 7 }),
            r.contrib_prime_factor == (Weight { numer: 2, denom: 5 }),
            r.depend_factor == (Weight { numer: 4, denom: 7 }),
            r.maintain_factor == (Weight { numer: 2, denom: 7 }),
            r.maintain_prime_factor == (Weight { numer: 3, denom: 5 }),
    {
        HyperParams {
            contrib_factor: Weight { numer: 1, denom: 7 },
            contrib_prime_factor: Weight { numer: 2, denom: 5 },
            depend_factor: Weight { numer: 4, denom: 7 },
            maintain_factor: Weight { numer: 2, denom: 7 },
            maintain_prime_factor: Weight { numer: 3, denom: 5 },
        }
    }
}

/// A ledger that hands out the paper's hyperparameters.
#[derive(Debug, Clone, Copy, PartialEq, Eq, Structural)]
pub struct MockLedger {}

impl MockLedger {
    pub fn new() -> (r: MockLedger) {
        MockLedger {}
    }

    pub fn get_hyperparams(&self) -> (r: HyperParams)
        ensures
            r.valid(),
            r.contrib_factor == (Weight { numer: 1, denom: 7 }),
            r.contrib_prime_factor == (Weight { numer: 2, denom: 5 }),
            r.depend_factor == (Weight { numer: 4, denom: 7 }),
            r.maintain_factor == (Weight { numer: 2, denom: 7 }),
            r.maintain_prime_factor == (Weight { numer: 3, denom: 5 }),
    {
        HyperParams::default()
    }
}

/// A wrapper that marks a value as a stand-in.
pub struct Mock<A> {
    pub unmock: A,
}

/// A value that is not zero.
#[derive(Debug, Clone)]
pub struct Positive<N> {
    pub get_positive: N,
}

/// Records annotations in a map from key to value; a later annotation of a
/// key replaces the earlier one.
pub struct KeyValueAnnotator<K, V> {
    pub annotator: HashMap<K, V>,
}

impl<K: Eq + Hash, V> KeyValueAnnotator<K, V> {
    pub fn new() -> (r: KeyValueAnnotator<K, V>)
        ensures
            r.annotator@ == Map::<K, V>::empty(),
    {
        KeyValueAnnotator { annotator: HashMap::new() }
    }

    pub fn annotate_graph(&mut self, note: (K, V))
        ensures
            vstd::std_specs::hash::obeys_key_model::<K>() ==> final(self).annotator@ == old(self).annotator@.insert(
                note.0,
                note.1,
            ),
    {
        broadcast use vstd::std_specs::hash::axiom_random_state_builds_valid_hashers;
        self.annotator.insert(note.0, note.1);
    }
}

/// Sum of the frequencies of a list.
pub open spec fn freq_total<A>(xs: Seq<(u32, A)>) -> int
    decreases xs.len(),
{
    if xs.len() == 0 {
        0
    } else {
        freq_total(xs.drop_last()) + xs.last().0
    }
}

/// Position `k` is the first whose running total of frequencies reaches `n`.
pub open spec fn picks<A>(xs: Seq<(u32, A)>, n: int, k: int) -> bool {
    &&& 0 <= k < xs.len()
    &&& n <= freq_total(xs.take(k + 1))
    &&& forall|j: int| 0 <= j < k ==> n > #[trigger] freq_total(xs.take(j + 1))
}

proof fn lemma_freq_take<A>(xs: Seq<(u32, A)>, k: int)
    requires
        0 <= k < xs.len(),
    ensures
        freq_total(xs.take(k + 1)) == freq_total(xs.take(k)) + xs[k].0,
{
    assert(xs.take(k + 1).drop_last() =~= xs.take(k));
}

/// The item of `xs` at which the running total of frequencies first reaches
/// `n`.
pub fn pick<A>(n: u32, xs: Vec<(u32, A)>) -> (r: A)
    requires
        xs@.len() > 0,
        n <= freq_total(xs@),
    ensures
        exists|k: int| picks(xs@, n as int, k) && r == xs@[k].1,
{
    let ghost orig = xs@;
    let mut rest = xs;
    let mut acc: u32 = n;
    let ghost mut i: int = 0;
    while rest.len() > 1
        invariant
            0 <= i < orig.len(),
            orig == xs@,
            rest@ == orig.skip(i),
            acc == n - freq_total(orig.take(i)),
            n <= freq_total(orig),
            forall|j: int| 0 <= j < i ==> n > #[trigger] freq_total(orig.take(j + 1)),
        decreases rest@.len(),
    {
        proof {
            lemma_freq_take(orig, i);
        }
        assert(rest@[0] == orig[i]);
        let (k, x) = rest.remove(0);
        if acc <= k {
            assert(picks(orig, n as int, i));
            return x;
        }
        acc = acc - k;
        proof {
            assert(rest@ =~= orig.skip(i + 1));
            i = i + 1;
        }
    }
    proof {
        assert(i == orig.len() - 1);
        lemma_freq_take(orig, i);
        assert(orig.take(i + 1) =~= orig);
        assert(rest@[0] == orig[i]);
        assert(picks(orig, n as int, i));
    }
    let (_, x) = rest.remove(0);
    x
}

/// Picks an item with odds given by its frequency: a number is drawn in
/// `[1, total)` and the item where the running total reaches it is returned.
pub fn frequency<A>(rng: &mut XorShiftRng, xs: Vec<(u32, A)>) -> (r: A)
    requires
        xs@.len() > 0,
        2 <= freq_total(xs@) <= u32::MAX,
    ensures
        exists|n: int, k: int| 1 <= n < freq_total(xs@) && picks(xs@, n, k) && r == xs@[k].1,
{
    let mut tot: u32 = 0;
    let mut i: usize = 0;
    while i < xs.len()
        invariant
            i <= xs@.len(),
            freq_total(xs@) <= u32::MAX,
            tot == freq_total(xs@.take(i as int)),
        decreases xs@.len() - i,
    {
        proof {
            lemma_freq_take(xs@, i as int);
            lemma_freq_prefix(xs@, i + 1);
        }
        tot = tot + xs[i].0;
        i += 1;
    }
    assert(xs@.take(xs@.len() as int) =~= xs@);
    let choice = (draw_below(rng, (tot - 1) as u64) + 1) as u32;
    pick(choice, xs)
}

proof fn lemma_freq_prefix<A>(xs: Seq<(u32, A)>, k: int)
    requires
        0 <= k <= xs.len(),
    ensures
        freq_total(xs.take(k)) <= freq_total(xs),
    decreases xs.len(),
{
    if k < xs.len() {
        lemma_freq_prefix(xs.drop_last(), k);
        assert(xs.drop_last().take(k) =~= xs.take(k));
    } else {
        assert(xs.take(k) =~= xs);
    }
}

} // verus!
