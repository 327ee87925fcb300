//! The mean-iterative rule: the cutoff halfway between the mean levels of
//! the two classes that it separates.

use vstd::prelude::*;
use vstd::arithmetic::div_mod::{
    lemma_div_by_multiple, lemma_fundamental_div_mod, lemma_mod_bound, lemma_mod_pos_bound,
};
use crate::histogram::{
    histogram_of, lemma_histogram_unique, lemma_single_bucket, lemma_weight_bounds,
    lemma_weight_limit, lemma_weight_split, moment, total, weight,
};
use crate::image::{Image, ImageView};
use crate::threshold::binarized;

verus! {

/// Most rounds of refinement that the search for the cutoff makes.
pub const MEAN_ROUNDS: u32 = 512;

/// A mean level, as the fraction `num / den`.
pub struct Mean {
    pub num: int,
    pub den: int,
}

impl Mean {
    /// Whether the level `i` lies below the mean.
    pub open spec fn exceeds(self, i: int) -> bool {
        i * self.den < self.num
    }

    /// Number of levels below the mean: the mean rounded up.
    pub open spec fn cut(self) -> int {
        (self.num + self.den - 1) / self.den
    }

    /// The mean with its fraction cut off.
    pub open spec fn floor(self) -> int {
        self.num / self.den
    }

    /// Whether the mean is at most `other`.
    pub open spec fn at_most(self, other: Mean) -> bool {
        self.num * other.den <= other.num * self.den
    }

    /// Whether the mean is a level: a fraction with a positive denominator
    /// and a value from 0 to 255.
    pub open spec fn is_level(self) -> bool {
        0 < self.den && 0 <= self.num <= 255 * self.den
    }

    /// Whether the two means differ by at most 0.01.
    pub open spec fn near(self, other: Mean) -> bool {
        let d = self.num * other.den - other.num * self.den;
        100 * (if d < 0 {
            -d
        } else {
            d
        }) <= self.den * other.den
    }
}

/// Whether the cut `s` has entries on both sides: some below level `s` and
/// some at or above it.
pub open spec fn splits_at(h: Seq<u32>, s: int) -> bool {
    weight(h, 0, s) > 0 && weight(h, s, 256) > 0
}

/// The average of the mean level below `s` and the mean level from `s` on.
pub open spec fn mean_at(h: Seq<u32>, s: int) -> Mean {
    Mean {
        num: moment(h, 0, s) * weight(h, s, 256) + moment(h, s, 256) * weight(h, 0, s),
        den: 2 * weight(h, 0, s) * weight(h, s, 256),
    }
}

/// Whether the mean has entries on both sides: some below it and some at or
/// above it.
pub open spec fn divides(h: Seq<u32>, m: Mean) -> bool {
    splits_at(h, m.cut())
}

/// The next mean: the average of the mean level below `m` and the mean
/// level at or above `m`.
pub open spec fn refined(h: Seq<u32>, m: Mean) -> Mean {
    mean_at(h, m.cut())
}

/// The mean at which refinement stops, starting at `m` with `prev` before
/// it: at the first mean that is near the one before it or that leaves one
/// side empty, and after `rounds` refinements at the latest.
pub open spec fn converged(h: Seq<u32>, m: Mean, prev: Mean, rounds: nat) -> Mean
    decreases rounds,
{
    if rounds == 0 || m.near(prev) || !divides(h, m) {
        m
    } else {
        converged(h, refined(h, m), m, (rounds - 1) as nat)
    }
}

/// The mean-iterative cutoff of a histogram. The search starts at the mean
/// of all counted levels, compared with 0; the cutoff is the mean at which
/// it stops, with the fraction cut off. A histogram that counts nothing has
/// the cutoff 0.
pub open spec fn mean_iterative_level(h: Seq<u32>) -> int {
    if total(h) == 0 {
        0
    } else {
        converged(
            h,
            Mean { num: moment(h, 0, 256), den: total(h) },
            Mean { num: 0, den: 1 },
            MEAN_ROUNDS as nat,
        ).floor()
    }
}

/// The levels below a mean are those under its cut.
pub proof fn lemma_cut(m: Mean, i: int)
    requires
        0 < m.den,
    ensures
        m.exceeds(i) <==> i < m.cut(),
{
    let x = m.num + m.den - 1;
    lemma_fundamental_div_mod(x, m.den);
    lemma_mod_bound(x, m.den);
    let q = x / m.den;
    let r = x % m.den;
    assert(x == m.den * q + r);
    if i < q {
        assert(m.den * (i + 1) <= m.den * q) by (nonlinear_arith)
            requires
                i + 1 <= q,
                0 < m.den,
        ;
        assert(m.den * (i + 1) == m.den * i + m.den) by (nonlinear_arith);
        assert(i * m.den == m.den * i) by (nonlinear_arith);
    } else {
        assert(m.den * q <= m.den * i) by (nonlinear_arith)
            requires
                q <= i,
                0 < m.den,
        ;
        assert(i * m.den == m.den * i) by (nonlinear_arith);
    }
}

/// A mean that is a level has its cut from 0 to 255.
pub proof fn lemma_cut_range(m: Mean)
    requires
        m.is_level(),
    ensures
        0 <= m.cut() <= 255,
{
    lemma_cut(m, 255);
    lemma_cut(m, -1);
}

/// The smaller of two means has the smaller cut.
pub proof fn lemma_cut_monotone(a: Mean, b: Mean)
    requires
        0 < a.den,
        0 < b.den,
        a.at_most(b),
    ensures
        a.cut() <= b.cut(),
{
    let i = b.cut();
    lemma_cut(a, i);
    lemma_cut(b, i);
    if i < a.cut() {
        assert((i * a.den) * b.den < a.num * b.den) by (nonlinear_arith)
            requires
                i * a.den < a.num,
                0 < b.den,
        ;
        assert(b.num * a.den <= (i * b.den) * a.den) by (nonlinear_arith)
            requires
                b.num <= i * b.den,
                0 < a.den,
        ;
        assert((i * a.den) * b.den == (i * b.den) * a.den) by (nonlinear_arith);
    }
}

/// A mean is near itself.
pub proof fn lemma_near_self(m: Mean)
    ensures
        m.near(m),
{
    assert(0 <= m.den * m.den) by (nonlinear_arith);
}

/// The mean for a cut with entries on both sides is a level.
pub proof fn lemma_mean_at_level(h: Seq<u32>, s: int)
    requires
        0 <= s <= 256,
        splits_at(h, s),
    ensures
        mean_at(h, s).is_level(),
{
    lemma_weight_bounds(h, 0, s);
    lemma_weight_bounds(h, s, 256);
    let below = weight(h, 0, s);
    let beside = weight(h, s, 256);
    let low = moment(h, 0, s);
    let high = moment(h, s, 256);
    assert(0 < 2 * below * beside) by (nonlinear_arith)
        requires
            0 < below,
            0 < beside,
    ;
    assert(0 <= low * beside + high * below) by (nonlinear_arith)
        requires
            0 <= low,
            0 <= high,
            0 < below,
            0 < beside,
    ;
    assert(low * beside <= 255 * (below * beside)) by (nonlinear_arith)
        requires
            low <= (s - 1) * below,
            s <= 256,
            0 < below,
            0 < beside,
    ;
    assert(high * below <= 255 * (below * beside)) by (nonlinear_arith)
        requires
            high <= 255 * beside,
            0 < below,
            0 < beside,
    ;
    assert(255 * (2 * below * beside) == 255 * (below * beside) + 255 * (below * beside))
        by (nonlinear_arith);
}

/// Raising the cut raises the mean level below it and the mean level from it
/// on, each written as an inequality between products.
pub proof fn lemma_class_means_monotone(h: Seq<u32>, s: int, t: int)
    requires
        0 <= s <= t <= 256,
    ensures
        moment(h, 0, s) * weight(h, 0, t) <= moment(h, 0, t) * weight(h, 0, s),
        moment(h, s, 256) * weight(h, t, 256) <= moment(h, t, 256) * weight(h, s, 256),
{
    lemma_weight_split(h, 0, s, t);
    lemma_weight_split(h, s, t, 256);
    lemma_weight_bounds(h, 0, s);
    lemma_weight_bounds(h, s, t);
    lemma_weight_bounds(h, t, 256);
    let w0 = weight(h, 0, s);
    let w1 = weight(h, s, t);
    let w2 = weight(h, t, 256);
    let m0 = moment(h, 0, s);
    let m1 = moment(h, s, t);
    let m2 = moment(h, t, 256);
    assert(m0 <= s * w0) by (nonlinear_arith)
        requires
            s == 0 || m0 <= (s - 1) * w0,
            0 * w0 <= m0,
            s == 0 ==> m0 == 0,
            0 <= w0,
            0 <= s,
    ;
    assert(m0 * w1 <= (s * w0) * w1) by (nonlinear_arith)
        requires
            m0 <= s * w0,
            0 <= w1,
    ;
    assert((s * w1) * w0 <= m1 * w0) by (nonlinear_arith)
        requires
            s * w1 <= m1,
            0 <= w0,
    ;
    assert((s * w0) * w1 == (s * w1) * w0) by (nonlinear_arith);
    assert(m0 * (w0 + w1) <= (m0 + m1) * w0) by (nonlinear_arith)
        requires
            m0 * w1 <= m1 * w0,
    ;
    if s < t {
        assert(m1 * w2 <= (t * w1) * w2) by (nonlinear_arith)
            requires
                m1 <= (t - 1) * w1,
                0 <= w1,
                0 <= w2,
        ;
    } else {
        assert(m1 * w2 <= (t * w1) * w2) by (nonlinear_arith)
            requires
                m1 == 0,
                w1 == 0,
        ;
    }
    assert((t * w2) * w1 <= m2 * w1) by (nonlinear_arith)
        requires
            t * w2 <= m2,
            0 <= w1,
    ;
    assert((t * w1) * w2 == (t * w2) * w1) by (nonlinear_arith);
    assert((m1 + m2) * w2 <= m2 * (w1 + w2)) by (nonlinear_arith)
        requires
            m1 * w2 <= m2 * w1,
    ;
}

/// Raising the cut does not lower the mean that belongs to it.
pub proof fn lemma_mean_at_monotone(h: Seq<u32>, s: int, t: int)
    requires
        0 <= s <= t <= 256,
        splits_at(h, s),
        splits_at(h, t),
    ensures
        mean_at(h, s).at_most(mean_at(h, t)),
{
    lemma_class_means_monotone(h, s, t);
    lemma_weight_bounds(h, 0, s);
    lemma_weight_bounds(h, s, 256);
    lemma_weight_bounds(h, 0, t);
    lemma_weight_bounds(h, t, 256);
    let a = moment(h, 0, s);
    let b = weight(h, 0, s);
    let c = moment(h, s, 256);
    let d = weight(h, s, 256);
    let a2 = moment(h, 0, t);
    let b2 = weight(h, 0, t);
    let c2 = moment(h, t, 256);
    let d2 = weight(h, t, 256);
    lemma_average_order(a, b, c, d, a2, b2, c2, d2);
}

/// The average of two fractions does not fall when neither fraction falls:
/// if `a / b <= a2 / b2` and `c / d <= c2 / d2`, then the average of `a / b`
/// and `c / d` is at most that of `a2 / b2` and `c2 / d2`.
proof fn lemma_average_order(a: int, b: int, c: int, d: int, a2: int, b2: int, c2: int, d2: int)
    requires
        a * b2 <= a2 * b,
        c * d2 <= c2 * d,
        0 < b,
        0 < d,
        0 < b2,
        0 < d2,
    ensures
        (a * d + c * b) * (2 * b2 * d2) <= (a2 * d2 + c2 * b2) * (2 * b * d),
{
    let dd = d * d2;
    let bb = b * b2;
    assert(0 < dd) by (nonlinear_arith)
        requires
            dd == d * d2,
            0 < d,
            0 < d2,
    ;
    assert(0 < bb) by (nonlinear_arith)
        requires
            bb == b * b2,
            0 < b,
            0 < b2,
    ;
    assert((a * b2) * dd <= (a2 * b) * dd) by (nonlinear_arith)
        requires
            a * b2 <= a2 * b,
            0 < dd,
    ;
    assert((c * d2) * bb <= (c2 * d) * bb) by (nonlinear_arith)
        requires
            c * d2 <= c2 * d,
            0 < bb,
    ;
    let q = b2 * d2;
    let r = b * d;
    assert((a * d) * q == (a * b2) * dd) by (nonlinear_arith)
        requires
            q == b2 * d2,
            dd == d * d2,
    ;
    assert((c * b) * q == (c * d2) * bb) by (nonlinear_arith)
        requires
            q == b2 * d2,
            bb == b * b2,
    ;
    assert((a2 * d2) * r == (a2 * b) * dd) by (nonlinear_arith)
        requires
            r == b * d,
            dd == d * d2,
    ;
    assert((c2 * b2) * r == (c2 * d) * bb) by (nonlinear_arith)
        requires
            r == b * d,
            bb == b * b2,
    ;
    let x = a * d;
    let y = c * b;
    let x2 = a2 * d2;
    let y2 = c2 * b2;
    assert((x + y) * (2 * b2 * d2) == 2 * (x * q) + 2 * (y * q)) by (nonlinear_arith)
        requires
            q == b2 * d2,
    ;
    assert((x2 + y2) * (2 * b * d) == 2 * (x2 * r) + 2 * (y2 * r)) by (nonlinear_arith)
        requires
            r == b * d,
    ;
}

/// Where refinement leaves the cut in place, the refined mean is where the
/// search stops, however many rounds are left.
proof fn lemma_rest(h: Seq<u32>, m: Mean, rounds: nat)
    requires
        0 <= m.cut() <= 256,
        divides(h, m),
        refined(h, m).cut() == m.cut(),
    ensures
        converged(h, refined(h, m), m, rounds) == refined(h, m),
{
    let next = refined(h, m);
    lemma_near_self(next);
    if !(rounds == 0 || next.near(m) || !divides(h, next)) {
        assert(refined(h, next) == next);
        assert(converged(h, next, next, (rounds - 1) as nat) == next);
    }
}

/// While the cut moves up, the rounds that are left suffice if there is one
/// for each level above the cut and two more.
proof fn lemma_rounds_suffice_up(h: Seq<u32>, m: Mean, prev: Mean, rounds: nat, more: nat)
    requires
        0 <= prev.cut() <= m.cut() <= 256,
        splits_at(h, prev.cut()),
        m == mean_at(h, prev.cut()),
        rounds + m.cut() >= 258,
    ensures
        converged(h, m, prev, rounds) == converged(h, m, prev, rounds + more),
    decreases rounds,
{
    if !(m.near(prev) || !divides(h, m)) {
        let next = refined(h, m);
        lemma_mean_at_monotone(h, prev.cut(), m.cut());
        lemma_mean_at_level(h, prev.cut());
        lemma_mean_at_level(h, m.cut());
        lemma_cut_monotone(m, next);
        lemma_cut_range(next);
        assert(converged(h, m, prev, rounds) == converged(h, next, m, (rounds - 1) as nat));
        assert(converged(h, m, prev, rounds + more) == converged(
            h,
            next,
            m,
            (rounds + more - 1) as nat,
        ));
        if next.cut() == m.cut() {
            lemma_rest(h, m, (rounds - 1) as nat);
            lemma_rest(h, m, (rounds + more - 1) as nat);
        } else {
            lemma_rounds_suffice_up(h, next, m, (rounds - 1) as nat, more);
        }
    }
}

/// While the cut moves down, the rounds that are left suffice if there is
/// one for each level below the cut and two more.
proof fn lemma_rounds_suffice_down(h: Seq<u32>, m: Mean, prev: Mean, rounds: nat, more: nat)
    requires
        0 <= m.cut() <= prev.cut() <= 256,
        splits_at(h, prev.cut()),
        m == mean_at(h, prev.cut()),
        rounds >= m.cut() + 2,
    ensures
        converged(h, m, prev, rounds) == converged(h, m, prev, rounds + more),
    decreases rounds,
{
    if !(m.near(prev) || !divides(h, m)) {
        let next = refined(h, m);
        lemma_mean_at_monotone(h, m.cut(), prev.cut());
        lemma_mean_at_level(h, prev.cut());
        lemma_mean_at_level(h, m.cut());
        lemma_cut_monotone(next, m);
        lemma_cut_range(next);
        assert(converged(h, m, prev, rounds) == converged(h, next, m, (rounds - 1) as nat));
        assert(converged(h, m, prev, rounds + more) == converged(
            h,
            next,
            m,
            (rounds + more - 1) as nat,
        ));
        if next.cut() == m.cut() {
            lemma_rest(h, m, (rounds - 1) as nat);
            lemma_rest(h, m, (rounds + more - 1) as nat);
        } else {
            lemma_rounds_suffice_down(h, next, m, (rounds - 1) as nat, more);
        }
    }
}

/// The search for the mean-iterative cutoff ends of itself. From the first
/// refinement on the cut between the two classes moves in one direction
/// only, and once it rests the mean rests too; so the bound on the rounds is
/// never what ends the search, and a larger bound gives the same mean.
pub proof fn lemma_rounds_suffice(h: Seq<u32>, more: nat)
    requires
        h.len() == 256,
        total(h) > 0,
    ensures
        converged(
            h,
            Mean { num: moment(h, 0, 256), den: total(h) },
            Mean { num: 0, den: 1 },
            MEAN_ROUNDS as nat,
        ) == converged(
            h,
            Mean { num: moment(h, 0, 256), den: total(h) },
            Mean { num: 0, den: 1 },
            MEAN_ROUNDS as nat + more,
        ),
{
    let start = Mean { num: moment(h, 0, 256), den: total(h) };
    let zero = Mean { num: 0, den: 1 };
    let rounds = MEAN_ROUNDS as nat;
    lemma_weight_bounds(h, 0, 256);
    lemma_cut_range(start);
    if !(start.near(zero) || !divides(h, start)) {
        let next = refined(h, start);
        lemma_mean_at_level(h, start.cut());
        lemma_cut_range(next);
        assert(converged(h, start, zero, rounds) == converged(h, next, start, (rounds - 1) as nat));
        assert(converged(h, start, zero, rounds + more) == converged(
            h,
            next,
            start,
            (rounds + more - 1) as nat,
        ));
        if start.cut() <= next.cut() {
            lemma_rounds_suffice_up(h, next, start, (rounds - 1) as nat, more);
        } else {
            lemma_rounds_suffice_down(h, next, start, (rounds - 1) as nat, more);
        }
    }
}

/// Where all counted entries are at one level, no cut leaves entries on both
/// sides, and the cutoff is that level.
pub proof fn lemma_single_level(h: Seq<u32>, g: int)
    requires
        h.len() == 256,
        0 <= g < 256,
        h[g] > 0,
        forall|v: int| 0 <= v && v != g ==> h[v] == 0,
    ensures
        mean_iterative_level(h) == g,
{
    let count = h[g] as int;
    lemma_single_bucket(h, g, 0, 256);
    lemma_single_bucket(h, g, 0, g);
    let start = Mean { num: g * count, den: count };
    let zero = Mean { num: 0, den: 1 };
    assert(start == (Mean { num: moment(h, 0, 256), den: total(h) }));
    lemma_cut(start, g);
    lemma_cut(start, g - 1);
    assert((g - 1) * count < g * count) by (nonlinear_arith)
        requires
            0 < count,
    ;
    assert(start.cut() == g);
    assert(!divides(h, start));
    assert(converged(h, start, zero, MEAN_ROUNDS as nat) == start);
    lemma_div_by_multiple(g, count);
}

/// Running sums of a histogram: entry `k` of the first array is the number
/// of entries below level `k`, entry `k` of the second the sum of their
/// levels.
pub fn prefix_sums(h: &[u32; 256]) -> (r: ([u64; 257], [u64; 257]))
    ensures
        forall|k: int| 0 <= k <= 256 ==> r.0[k] == #[trigger] weight(h@, 0, k),
        forall|k: int| 0 <= k <= 256 ==> r.1[k] == #[trigger] moment(h@, 0, k),
{
    let mut weights: [u64; 257] = [0u64; 257];
    let mut moments: [u64; 257] = [0u64; 257];
    let mut k: usize = 0;
    while k < 256
        invariant
            k <= 256,
            forall|j: int| 0 <= j <= k ==> weights[j] == #[trigger] weight(h@, 0, j),
            forall|j: int| 0 <= j <= k ==> moments[j] == #[trigger] moment(h@, 0, j),
        decreases 256 - k,
    {
        proof {
            lemma_weight_limit(h@, 0, k as int);
            lemma_weight_bounds(h@, 0, k as int);
            assert(moment(h@, 0, k as int) <= 255 * (256 * 0xffff_ffff)) by (nonlinear_arith)
                requires
                    k == 0 || moment(h@, 0, k as int) <= (k - 1) * weight(h@, 0, k as int),
                    k == 0 ==> moment(h@, 0, k as int) == 0,
                    0 <= weight(h@, 0, k as int) <= k * 0xffff_ffff,
                    0 <= k <= 256,
            ;
            assert(k * h@[k as int] <= 255 * 0xffff_ffff) by (nonlinear_arith)
                requires
                    0 <= k <= 255,
                    0 <= h@[k as int] <= 0xffff_ffff,
            ;
        }
        let count: u64 = h[k] as u64;
        let below: u64 = weights[k];
        let sum: u64 = moments[k];
        weights[k + 1] = below + count;
        moments[k + 1] = sum + (k as u64) * count;
        k = k + 1;
    }
    (weights, moments)
}

/// Whether two fractions differ by at most 0.01.
fn fractions_near(an: u128, ad: u128, bn: u128, bd: u128) -> (r: bool)
    requires
        0 < ad <= 0x8000_0000_0000_0000,
        0 < bd <= 0x8000_0000_0000_0000,
        an <= 255 * ad,
        bn <= 255 * bd,
    ensures
        r == (Mean { num: an as int, den: ad as int }).near(
            Mean { num: bn as int, den: bd as int },
        ),
{
    let qa: u128 = an / ad;
    let ra: u128 = an % ad;
    let qb: u128 = bn / bd;
    let rb: u128 = bn % bd;
    proof {
        lemma_fundamental_div_mod(an as int, ad as int);
        lemma_fundamental_div_mod(bn as int, bd as int);
        lemma_mod_pos_bound(an as int, ad as int);
        lemma_mod_pos_bound(bn as int, bd as int);
        assert(ad * bd <= 0x8000_0000_0000_0000 * 0x8000_0000_0000_0000) by (nonlinear_arith)
            requires
                0 < ad <= 0x8000_0000_0000_0000,
                0 < bd <= 0x8000_0000_0000_0000,
        ;
        assert(0 < ad * bd) by (nonlinear_arith)
            requires
                0 < ad,
                0 < bd,
        ;
        assert(ra * bd < ad * bd) by (nonlinear_arith)
            requires
                0 <= ra < ad,
                0 < bd,
        ;
        assert(rb * ad < ad * bd) by (nonlinear_arith)
            requires
                0 <= rb < bd,
                0 < ad,
        ;
        assert(an * bd - bn * ad == (qa - qb) * (ad * bd) + ra * bd - rb * ad) by (nonlinear_arith)
            requires
                an == ad * qa + ra,
                bn == bd * qb + rb,
        ;
    }
    let d: u128 = ad * bd;
    let p: u128 = ra * bd;
    let q: u128 = rb * ad;
    let ghost a = Mean { num: an as int, den: ad as int };
    let ghost b = Mean { num: bn as int, den: bd as int };
    let ghost diff: int = a.num * b.den - b.num * a.den;
    let ghost dist: int = if diff < 0 {
        -diff
    } else {
        diff
    };
    proof {
        assert(a.den * b.den == d);
        assert(diff == (qa - qb) * d + p - q);
        assert(a.near(b) == (100 * dist <= d));
    }
    if qa == qb {
        proof {
            assert((qa - qb) * d == 0) by (nonlinear_arith)
                requires
                    qa == qb,
            ;
        }
        let gap: u128 = if p >= q {
            p - q
        } else {
            q - p
        };
        assert(gap == dist);
        gap <= d / 100
    } else if qa == qb + 1 {
        proof {
            assert((qa - qb) * d == d) by (nonlinear_arith)
                requires
                    qa == qb + 1,
            ;
        }
        let gap: u128 = d + p - q;
        assert(gap == dist);
        gap <= d / 100
    } else if qb == qa + 1 {
        proof {
            assert((qa - qb) * d == -d) by (nonlinear_arith)
                requires
                    qb == qa + 1,
            ;
        }
        let gap: u128 = d + q - p;
        assert(gap == dist);
        gap <= d / 100
    } else {
        proof {
            if qa > qb {
                assert((qa - qb) * d >= 2 * d) by (nonlinear_arith)
                    requires
                        qa - qb >= 2,
                        d > 0,
                ;
            } else {
                assert((qa - qb) * d <= -2 * d) by (nonlinear_arith)
                    requires
                        qa - qb <= -2,
                        d > 0,
                ;
            }
            assert(dist > d);
        }
        false
    }
}

/// The mean-iterative cutoff of a histogram that counts fewer than 2^32
/// entries.
pub fn mean_iterative_threshold(h: &[u32; 256]) -> (t: u8)
    requires
        total(h@) <= u32::MAX,
    ensures
        t == mean_iterative_level(h@),
{
    let sums: ([u64; 257], [u64; 257]) = prefix_sums(h);
    let weights: [u64; 257] = sums.0;
    let moments: [u64; 257] = sums.1;
    let n: u64 = weights[256];
    if n == 0 {
        return 0;
    }
    proof {
        lemma_weight_bounds(h@, 0, 256);
    }
    let mut num: u128 = moments[256] as u128;
    let mut den: u128 = n as u128;
    let mut prev_num: u128 = 0;
    let mut prev_den: u128 = 1;
    let mut rounds: u32 = MEAN_ROUNDS;
    let mut done: bool = false;
    let ghost start = Mean { num: moment(h@, 0, 256), den: total(h@) };
    let ghost goal = converged(h@, start, Mean { num: 0, den: 1 }, MEAN_ROUNDS as nat);
    while rounds > 0 && !done
        invariant
            forall|k: int| 0 <= k <= 256 ==> weights[k] == #[trigger] weight(h@, 0, k),
            forall|k: int| 0 <= k <= 256 ==> moments[k] == #[trigger] moment(h@, 0, k),
            n == total(h@),
            0 < n <= u32::MAX,
            0 < den <= 0x8000_0000_0000_0000,
            0 < prev_den <= 0x8000_0000_0000_0000,
            num <= 255 * den,
            prev_num <= 255 * prev_den,
            done ==> goal == (Mean { num: num as int, den: den as int }),
            !done ==> goal == converged(
                h@,
                Mean { num: num as int, den: den as int },
                Mean { num: prev_num as int, den: prev_den as int },
                rounds as nat,
            ),
        decreases rounds + if done { 0int } else { 1int },
    {
        let ghost m = Mean { num: num as int, den: den as int };
        if fractions_near(num, den, prev_num, prev_den) {
            done = true;
        } else {
            let s: usize = ((num + den - 1) / den) as usize;
            proof {
                let x: int = num + den - 1;
                let d: int = den as int;
                lemma_fundamental_div_mod(x, d);
                lemma_mod_pos_bound(x, d);
                assert(x / d <= 256) by (nonlinear_arith)
                    requires
                        x == d * (x / d) + x % d,
                        0 <= x % d,
                        x < 256 * d,
                        0 < d,
                ;
                assert(s == m.cut());
                lemma_weight_split(h@, 0, s as int, 256);
                lemma_weight_bounds(h@, 0, s as int);
                lemma_weight_bounds(h@, s as int, 256);
            }
            let below: u64 = weights[s];
            let beside: u64 = n - below;
            if below == 0 || beside == 0 {
                done = true;
            } else {
                let low: u64 = moments[s];
                let high: u64 = moments[256] - low;
                proof {
                    lemma_mean_at_level(h@, s as int);
                    assert(4 * (below * beside) <= (below + beside) * (below + beside))
                        by (nonlinear_arith);
                    assert((below + beside) * (below + beside) <= 0xffff_ffff * 0xffff_ffff)
                        by (nonlinear_arith)
                        requires
                            0 <= below + beside <= 0xffff_ffff,
                    ;
                    assert(low * beside <= 255 * (below * beside)) by (nonlinear_arith)
                        requires
                            low <= (s - 1) * below,
                            s <= 256,
                            0 <= below,
                            0 <= beside,
                    ;
                    assert(high * below <= 255 * (below * beside)) by (nonlinear_arith)
                        requires
                            high <= 255 * beside,
                            0 <= below,
                            0 <= beside,
                    ;
                    assert(2 * below * beside == 2 * (below * beside)) by (nonlinear_arith);
                }
                prev_num = num;
                prev_den = den;
                let product: u128 = (below as u128) * (beside as u128);
                num = (low as u128) * (beside as u128) + (high as u128) * (below as u128);
                den = 2 * product;
                rounds = rounds - 1;
                proof {
                    assert(refined(h@, m) == (Mean { num: num as int, den: den as int }));
                }
            }
        }
    }
    proof {
        let x: int = num as int;
        let d: int = den as int;
        lemma_fundamental_div_mod(x, d);
        lemma_mod_pos_bound(x, d);
        assert(x / d <= 255) by (nonlinear_arith)
            requires
                x == d * (x / d) + x % d,
                0 <= x % d,
                x <= 255 * d,
                0 < d,
        ;
    }
    (num / den) as u8
}

impl Image {
    /// Binarizes with the mean-iterative cutoff of the gray levels. The
    /// pixels with a colour level at or above the cutoff become white.
    pub fn mean_iterative_selection(&self) -> (r: Image)
        ensures
            r@ == (ImageView {
                width: self@.width,
                height: self@.height,
                pixels: binarized(
                    self@.pixels,
                    mean_iterative_level(histogram_of(self@.gray())) as u8,
                    255,
                ),
            }),
            r@.wf(),
    {
        let h: [u32; 256] = self.get_grayscale_histogram();
        proof {
            lemma_histogram_unique(h@, self@.gray());
        }
        let t: u8 = mean_iterative_threshold(&h);
        self.threshold((t, 255))
    }
}

} // verus!
