use crate::merge::{in_some, merge, strictly_ascending};
use crate::segment::{lemma_ones, ones};
use crate::task::{cleared, span, PrimeInfo, Spoke};
use crate::wheel::{hop, hops, relative_prime, rp, route, MOD, SMALL_PRIMES};
use vstd::prelude::*;

verus! {

/// The eight spokes of the wheel up to `max`, spoke `k` holding the residue
/// class of `RELATIVE_PRIMES[k]` modulo 30.
pub open spec fn spokes_wf(spokes: Seq<Spoke>, max: int) -> bool {
    &&& spokes.len() == 8
    &&& forall|k: int| 0 <= k < 8 ==> #[trigger] spoke_ok(spokes[k], k, max)
}

/// Spoke `k` of the wheel up to `max`.
pub open spec fn spoke_ok(s: Spoke, k: int, max: int) -> bool {
    &&& s.wf()
    &&& s.id() == k
    &&& s.wheel().offset() == rp(k)
    &&& s.wheel().modulus() == 30
    &&& s.wheel().bits().len() == span(rp(k), 30, max)
}

/// `n` is a prime number.
pub open spec fn is_prime(n: int) -> bool {
    n >= 2 && forall|d: int| 1 < d < n ==> #[trigger] (n % d) != 0
}

/// `n` has a divisor strictly between 1 and itself.
pub open spec fn has_factor(n: int) -> bool {
    exists|d: int| 1 < d < n && #[trigger] (n % d) == 0
}

/// Every cleared position of the spoke stands for a number with a proper factor.
pub open spec fn marks_sound(s: Spoke) -> bool {
    forall|i: int|
        0 <= i < s.wheel().bits().len() && !#[trigger] s.wheel().bits()[i] ==> has_factor(
            s.wheel().value(i),
        )
}

/// No spoke has cleared a prime.
pub open spec fn all_marks_sound(spokes: Seq<Spoke>) -> bool {
    forall|k: int| 0 <= k < 8 ==> #[trigger] marks_sound(spokes[k])
}

/// Not divisible by 2, 3 or 5.
pub open spec fn coprime30(m: int) -> bool {
    m % 2 != 0 && m % 3 != 0 && m % 5 != 0
}

/// The spoke whose residue class holds `x`, for `x` coprime to 30.
pub open spec fn class_of(x: int) -> int {
    let r = x % 30;
    if r == 7 {
        0
    } else if r == 11 {
        1
    } else if r == 13 {
        2
    } else if r == 17 {
        3
    } else if r == 19 {
        4
    } else if r == 23 {
        5
    } else if r == 29 {
        6
    } else {
        7
    }
}

/// The position of `x` in its spoke exists and is cleared.
pub open spec fn is_cleared(spokes: Seq<Spoke>, x: int) -> bool {
    let k = class_of(x);
    let i = (x - rp(k)) / 30;
    &&& 0 <= i < spokes[k].wheel().bits().len()
    &&& !spokes[k].wheel().bits()[i]
}

/// The multiple `p * m` is cleared, if it is one that sieving by `p` reaches.
pub open spec fn multiple_cleared(spokes: Seq<Spoke>, p: int, m: int, max: int) -> bool {
    p <= m && coprime30(m) && p * m <= max ==> is_cleared(spokes, p * m)
}

/// Every multiple `p * m` with `m >= p` coprime to 30, up to `max`, is cleared.
pub open spec fn done(spokes: Seq<Spoke>, p: int, max: int) -> bool {
    forall|m: int| #[trigger] multiple_cleared(spokes, p, m, max)
}

/// Positions only ever go from set to cleared.
pub open spec fn shrinks(s0: Seq<Spoke>, s1: Seq<Spoke>) -> bool {
    forall|k: int, i: int|
        0 <= k < 8 && 0 <= i < s0[k].wheel().bits().len() && !s0[k].wheel().bits()[i] ==> !(
        #[trigger] s1[k].wheel().bits()[i])
}

proof fn lemma_class(x: int)
    requires
        coprime30(x),
        x >= 7,
    ensures
        0 <= class_of(x) < 8,
        x % 30 == rp(class_of(x)) % 30,
        x >= rp(class_of(x)),
        (x - rp(class_of(x))) % 30 == 0,
{
    vstd::arithmetic::div_mod::lemma_mod_mod(x, 2, 15);
    vstd::arithmetic::div_mod::lemma_mod_mod(x, 3, 10);
    vstd::arithmetic::div_mod::lemma_mod_mod(x, 5, 6);
    let r = x % 30;
    assert(r == 1 || r == 7 || r == 11 || r == 13 || r == 17 || r == 19 || r == 23 || r == 29);
    crate::wheel::lemma_rp_range(class_of(x));
    if r == 1 {
        assert(x >= 31);
    }
}

proof fn lemma_class_of_residue(x: int, k: int)
    requires
        0 <= k < 8,
        x % 30 == rp(k) % 30,
    ensures
        class_of(x) == k,
{
    assert(k == 0 || k == 1 || k == 2 || k == 3 || k == 4 || k == 5 || k == 6 || k == 7);
}

/// Position `i` of spoke `k` is set and its value's square does not exceed `max`.
pub open spec fn needs_cover(spokes: Seq<Spoke>, k: int, i: int, max: int) -> bool {
    &&& 0 <= k < 8
    &&& 0 <= i < spokes[k].wheel().bits().len()
    &&& spokes[k].wheel().bits()[i]
    &&& spokes[k].wheel().value(i) * spokes[k].wheel().value(i) <= max
}

/// The queue holds an entry of spoke `k` at or before position `i`.
pub open spec fn queued_before(q: Seq<PrimeInfo>, k: int, i: int) -> bool {
    exists|t: int| 0 <= t < q.len() && (#[trigger] q[t]).2 == k && q[t].1 <= i
}

/// Position `i` of spoke `k`, if it still has to sieve, has sieved already or
/// is reachable from the queue.
pub open spec fn frontier_at(spokes: Seq<Spoke>, q: Seq<PrimeInfo>, k: int, i: int, max: int) -> bool {
    needs_cover(spokes, k, i, max) ==> done(spokes, spokes[k].wheel().value(i), max)
        || queued_before(q, k, i)
}

pub open spec fn frontier_ok(spokes: Seq<Spoke>, q: Seq<PrimeInfo>, max: int) -> bool {
    forall|k: int, i: int| #[trigger] frontier_at(spokes, q, k, i, max)
}

proof fn lemma_frontier_remove(spokes: Seq<Spoke>, q0: Seq<PrimeInfo>, kk: int, max: int)
    requires
        frontier_ok(spokes, q0, max),
        0 <= kk < q0.len(),
    ensures
        forall|k: int, i: int|
            #[trigger] frontier_at(spokes, q0.remove(kk), k, i, max) || (k == q0[kk].2 && q0[kk].1
                <= i),
{
    let q1 = q0.remove(kk);
    assert forall|k: int, i: int|
        #[trigger] frontier_at(spokes, q1, k, i, max) || (k == q0[kk].2 && q0[kk].1 <= i) by {
        assert(frontier_at(spokes, q0, k, i, max));
        if needs_cover(spokes, k, i, max) && !done(spokes, spokes[k].wheel().value(i), max) {
            let t = choose|t: int| 0 <= t < q0.len() && (#[trigger] q0[t]).2 == k && q0[t].1 <= i;
            if t < kk {
                assert(q1[t] == q0[t]);
            } else if t > kk {
                assert(q1[t - 1] == q0[t]);
            }
        }
    }
}

proof fn lemma_frontier_push(spokes: Seq<Spoke>, q: Seq<PrimeInfo>, x: PrimeInfo, k: int, i: int, max: int)
    requires
        frontier_at(spokes, q, k, i, max) || (x.2 == k && x.1 <= i),
    ensures
        frontier_at(spokes, q.push(x), k, i, max),
{
    let q2 = q.push(x);
    if needs_cover(spokes, k, i, max) && !done(spokes, spokes[k].wheel().value(i), max) {
        if x.2 == k && x.1 <= i {
            assert(q2[q.len() as int] == x);
        } else {
            let t = choose|t: int| 0 <= t < q.len() && (#[trigger] q[t]).2 == k && q[t].1 <= i;
            assert(q2[t] == q[t]);
        }
    }
}

/// The queue covers every position but those of spoke `si` from `pi` on.
pub open spec fn covered_but(spokes: Seq<Spoke>, q: Seq<PrimeInfo>, si: int, pi: int, max: int) -> bool {
    forall|k: int, i: int| #[trigger] frontier_at(spokes, q, k, i, max) || (k == si && pi <= i)
}

/// The queue covers every position but position `pi` of spoke `si`.
pub open spec fn covered_except(spokes: Seq<Spoke>, q: Seq<PrimeInfo>, si: int, pi: int, max: int) -> bool {
    forall|k: int, i: int| #[trigger] frontier_at(spokes, q, k, i, max) || (k == si && i == pi)
}

proof fn lemma_requeue(spokes: Seq<Spoke>, q: Seq<PrimeInfo>, si: int, pi: int, ce: PrimeInfo, max: int)
    requires
        covered_but(spokes, q, si, pi, max),
        ce.2 == si,
        0 <= si < 8,
        spokes[si].wheel().is_first_one(pi, ce.1 as int),
    ensures
        frontier_ok(spokes, q.push(ce), max),
{
    assert forall|k: int, i: int| #[trigger] frontier_at(spokes, q.push(ce), k, i, max) by {
        assert(frontier_at(spokes, q, k, i, max) || (k == si && pi <= i));
        if !frontier_at(spokes, q, k, i, max) {
            assert(spokes[k].wheel().bits()[i]);
            assert(ce.1 <= i);
        }
        lemma_frontier_push(spokes, q, ce, k, i, max);
    }
}

proof fn lemma_drained(spokes: Seq<Spoke>, q: Seq<PrimeInfo>, si: int, pi: int, max: int)
    requires
        covered_but(spokes, q, si, pi, max),
        0 <= si < 8,
        spokes[si].wheel().none_from(pi),
    ensures
        frontier_ok(spokes, q, max),
{
    assert forall|k: int, i: int| #[trigger] frontier_at(spokes, q, k, i, max) by {
        assert(frontier_at(spokes, q, k, i, max) || (k == si && pi <= i));
    }
}

proof fn lemma_accept_push(spokes: Seq<Spoke>, q: Seq<PrimeInfo>, si: int, pi: int, ne: PrimeInfo, max: int)
    requires
        covered_but(spokes, q, si, pi, max),
        ne.2 == si,
        0 <= si < 8,
        spokes[si].wheel().is_first_one(pi + 1, ne.1 as int),
    ensures
        covered_except(spokes, q.push(ne), si, pi, max),
{
    assert forall|k: int, i: int| #[trigger] frontier_at(spokes, q.push(ne), k, i, max) || (k == si
        && i == pi) by {
        assert(frontier_at(spokes, q, k, i, max) || (k == si && pi <= i));
        if !frontier_at(spokes, q, k, i, max) && i != pi {
            assert(spokes[k].wheel().bits()[i]);
            assert(ne.1 <= i);
        }
        if !(k == si && i == pi) {
            lemma_frontier_push(spokes, q, ne, k, i, max);
        }
    }
}

proof fn lemma_accept_far(spokes: Seq<Spoke>, q: Seq<PrimeInfo>, si: int, pi: int, ne: PrimeInfo, max: int)
    requires
        covered_but(spokes, q, si, pi, max),
        0 <= si < 8,
        spokes[si].wheel().modulus() > 0,
        spokes[si].wheel().is_first_one(pi + 1, ne.1 as int),
        ne.0 == spokes[si].wheel().value(ne.1 as int),
        ne.0 * ne.0 > max,
    ensures
        covered_except(spokes, q, si, pi, max),
{
    let w = spokes[si].wheel();
    assert forall|k: int, i: int| #[trigger] frontier_at(spokes, q, k, i, max) || (k == si && i
        == pi) by {
        assert(frontier_at(spokes, q, k, i, max) || (k == si && pi <= i));
        if !frontier_at(spokes, q, k, i, max) && i != pi {
            assert(w.bits()[i]);
            assert(ne.1 <= i);
            assert(w.value(ne.1 as int) <= w.value(i)) by (nonlinear_arith)
                requires
                    ne.1 <= i,
                    w.modulus() > 0,
                    w.value(ne.1 as int) == w.offset() + ne.1 * w.modulus(),
                    w.value(i) == w.offset() + i * w.modulus(),
            ;
            assert(w.value(i) * w.value(i) > max) by (nonlinear_arith)
                requires
                    ne.0 <= w.value(i),
                    ne.0 * ne.0 > max,
                    ne.0 >= 0,
            ;
        }
    }
}

proof fn lemma_accept_none(spokes: Seq<Spoke>, q: Seq<PrimeInfo>, si: int, pi: int, max: int)
    requires
        covered_but(spokes, q, si, pi, max),
        0 <= si < 8,
        spokes[si].wheel().none_from(pi + 1),
    ensures
        covered_except(spokes, q, si, pi, max),
{
    assert forall|k: int, i: int| #[trigger] frontier_at(spokes, q, k, i, max) || (k == si && i
        == pi) by {
        assert(frontier_at(spokes, q, k, i, max) || (k == si && pi <= i));
    }
}

/// The entry that starts spoke `e.2` off: its first set position, whose
/// square does not exceed `max`.
pub open spec fn seeded(spokes: Seq<Spoke>, e: PrimeInfo, max: int) -> bool {
    &&& e.2 < 8
    &&& spokes[e.2 as int].wheel().is_first_one(0, e.1 as int)
    &&& e.0 == spokes[e.2 as int].wheel().value(e.1 as int)
    &&& e.0 * e.0 <= max
}

/// A queue entry names an index of a spoke and that index's value.
pub open spec fn entry_ok(spokes: Seq<Spoke>, e: PrimeInfo) -> bool {
    &&& e.2 < 8
    &&& e.1 < spokes[e.2 as int].wheel().bits().len()
    &&& e.0 == spokes[e.2 as int].wheel().value(e.1 as int)
}

/// Every entry of the queue is well formed.
pub open spec fn queue_ok(spokes: Seq<Spoke>, q: Seq<PrimeInfo>) -> bool {
    forall|i: int| 0 <= i < q.len() ==> entry_ok(spokes, #[trigger] q[i])
}

/// No two entries of the queue belong to the same spoke.
pub open spec fn one_per_spoke(q: Seq<PrimeInfo>) -> bool {
    forall|a: int, b: int| 0 <= a < b < q.len() ==> (#[trigger] q[a]).2 != (#[trigger] q[b]).2
}

proof fn lemma_one_per_spoke_remove(q: Seq<PrimeInfo>, k: int)
    requires
        one_per_spoke(q),
        0 <= k < q.len(),
    ensures
        one_per_spoke(q.remove(k)),
        forall|i: int| 0 <= i < q.remove(k).len() ==> (#[trigger] q.remove(k)[i]).2 != q[k].2,
{
    let r = q.remove(k);
    assert forall|a: int, b: int| 0 <= a < b < r.len() implies (#[trigger] r[a]).2 != (
    #[trigger] r[b]).2 by {
        let ja = if a < k { a } else { a + 1 };
        let jb = if b < k { b } else { b + 1 };
        assert(r[a] == q[ja] && r[b] == q[jb]);
        assert(q[ja].2 != q[jb].2);
    }
    assert forall|i: int| 0 <= i < r.len() implies (#[trigger] r[i]).2 != q[k].2 by {
        let j = if i < k { i } else { i + 1 };
        assert(r[i] == q[j]);
        if j < k {
            assert(q[j].2 != q[k].2);
        } else {
            assert(q[k].2 != q[j].2);
        }
    }
}

proof fn lemma_one_per_spoke_push(q: Seq<PrimeInfo>, x: PrimeInfo)
    requires
        one_per_spoke(q),
        forall|i: int| 0 <= i < q.len() ==> (#[trigger] q[i]).2 != x.2,
    ensures
        one_per_spoke(q.push(x)),
{
    let r = q.push(x);
    assert forall|a: int, b: int| 0 <= a < b < r.len() implies (#[trigger] r[a]).2 != (
    #[trigger] r[b]).2 by {
        assert(r[a] == q[a]);
        if b < q.len() {
            assert(r[b] == q[b]);
        }
    }
}

/// Entries of two different spokes have different values: the spokes hold
/// different residues modulo 30.
proof fn lemma_values_differ(spokes: Seq<Spoke>, e1: PrimeInfo, e2: PrimeInfo, max: int)
    requires
        spokes_wf(spokes, max),
        entry_ok(spokes, e1),
        entry_ok(spokes, e2),
        e1.2 != e2.2,
    ensures
        e1.0 != e2.0,
{
    let k1 = e1.2 as int;
    let k2 = e2.2 as int;
    assert(spoke_ok(spokes[k1], k1, max));
    assert(spoke_ok(spokes[k2], k2, max));
    assert(e1.0 == rp(k1) + e1.1 * 30);
    assert(e2.0 == rp(k2) + e2.1 * 30);
    assert(e1.0 == 30 * e1.1 + rp(k1)) by (nonlinear_arith)
        requires
            e1.0 == rp(k1) + e1.1 * 30,
    ;
    assert(e2.0 == 30 * e2.1 + rp(k2)) by (nonlinear_arith)
        requires
            e2.0 == rp(k2) + e2.1 * 30,
    ;
    vstd::arithmetic::div_mod::lemma_mod_multiples_vanish(e1.1 as int, rp(k1), 30);
    vstd::arithmetic::div_mod::lemma_mod_multiples_vanish(e2.1 as int, rp(k2), 30);
    crate::wheel::lemma_residues_distinct(k1, k2);
}

/// Positions `a` up to, not including, `b` of spoke `k` are all cleared.
pub open spec fn clear_between(spokes: Seq<Spoke>, k: int, a: int, b: int) -> bool {
    a <= b && forall|j: int| a <= j < b ==> !#[trigger] spokes[k].wheel().bits()[j]
}

/// The entry `e`, once queued, is still represented in `q` by an entry of its
/// spoke that lies past only cleared positions; or its spoke has no set
/// position left from `e`'s index on, and `q` holds no entry of that spoke.
pub open spec fn advanced(spokes: Seq<Spoke>, e: PrimeInfo, q: Seq<PrimeInfo>) -> bool {
    (spokes[e.2 as int].wheel().none_from(e.1 as int) && forall|u: int|
        0 <= u < q.len() ==> (#[trigger] q[u]).2 != e.2) || exists|u: int|
        0 <= u < q.len() && (#[trigger] q[u]).2 == e.2 && clear_between(
            spokes,
            e.2 as int,
            e.1 as int,
            q[u].1 as int,
        )
}

proof fn lemma_advanced_remove(spokes: Seq<Spoke>, orig: Seq<PrimeInfo>, q: Seq<PrimeInfo>, k: int)
    requires
        forall|t: int| 0 <= t < orig.len() ==> advanced(spokes, #[trigger] orig[t], q),
        one_per_spoke(q),
        0 <= k < q.len(),
    ensures
        forall|t: int|
            0 <= t < orig.len() && (#[trigger] orig[t]).2 != q[k].2 ==> advanced(
                spokes,
                orig[t],
                q.remove(k),
            ),
        forall|t: int|
            0 <= t < orig.len() && (#[trigger] orig[t]).2 == q[k].2 ==> clear_between(
                spokes,
                orig[t].2 as int,
                orig[t].1 as int,
                q[k].1 as int,
            ),
{
    let r = q.remove(k);
    assert forall|t: int| 0 <= t < orig.len() && (#[trigger] orig[t]).2 != q[k].2 implies advanced(
        spokes,
        orig[t],
        r,
    ) by {
        let e = orig[t];
        assert(advanced(spokes, e, q));
        if exists|u: int|
            0 <= u < q.len() && (#[trigger] q[u]).2 == e.2 && clear_between(
                spokes,
                e.2 as int,
                e.1 as int,
                q[u].1 as int,
            ) {
            let u = choose|u: int|
                0 <= u < q.len() && (#[trigger] q[u]).2 == e.2 && clear_between(
                    spokes,
                    e.2 as int,
                    e.1 as int,
                    q[u].1 as int,
                );
            let v = if u < k { u } else { u - 1 };
            assert(r[v] == q[u]);
        } else {
            assert forall|v: int| 0 <= v < r.len() implies (#[trigger] r[v]).2 != e.2 by {
                let u = if v < k { v } else { v + 1 };
                assert(r[v] == q[u]);
            }
        }
    }
    assert forall|t: int| 0 <= t < orig.len() && (#[trigger] orig[t]).2 == q[k].2 implies clear_between(
        spokes,
        orig[t].2 as int,
        orig[t].1 as int,
        q[k].1 as int,
    ) by {
        let e = orig[t];
        assert(advanced(spokes, e, q));
        assert(q[k].2 == e.2);
        let u = choose|u: int|
            0 <= u < q.len() && (#[trigger] q[u]).2 == e.2 && clear_between(
                spokes,
                e.2 as int,
                e.1 as int,
                q[u].1 as int,
            );
        if u < k {
            assert(q[u].2 != q[k].2);
        } else if u > k {
            assert(q[k].2 != q[u].2);
        }
    }
}

proof fn lemma_advanced_push(spokes: Seq<Spoke>, e: PrimeInfo, q: Seq<PrimeInfo>, x: PrimeInfo)
    requires
        (advanced(spokes, e, q) && x.2 != e.2) || (x.2 == e.2 && clear_between(
            spokes,
            e.2 as int,
            e.1 as int,
            x.1 as int,
        )),
    ensures
        advanced(spokes, e, q.push(x)),
{
    let r = q.push(x);
    if x.2 == e.2 && clear_between(spokes, e.2 as int, e.1 as int, x.1 as int) {
        assert(r[q.len() as int] == x);
    } else if exists|u: int|
        0 <= u < q.len() && (#[trigger] q[u]).2 == e.2 && clear_between(
            spokes,
            e.2 as int,
            e.1 as int,
            q[u].1 as int,
        ) {
        let u = choose|u: int|
            0 <= u < q.len() && (#[trigger] q[u]).2 == e.2 && clear_between(
                spokes,
                e.2 as int,
                e.1 as int,
                q[u].1 as int,
            );
        assert(r[u] == q[u]);
    } else {
        assert forall|v: int| 0 <= v < r.len() implies (#[trigger] r[v]).2 != e.2 by {
            if v < q.len() {
                assert(r[v] == q[v]);
            }
        }
    }
}

/// The order of the queue: by value, then index, then spoke.
pub open spec fn le(a: PrimeInfo, b: PrimeInfo) -> bool {
    a.0 < b.0 || (a.0 == b.0 && (a.1 < b.1 || (a.1 == b.1 && a.2 <= b.2)))
}

/// Positions that the entries of `q` have still to pass in their spokes.
pub open spec fn weight(spokes: Seq<Spoke>, q: Seq<PrimeInfo>) -> int
    decreases q.len(),
{
    if q.len() == 0 {
        0
    } else {
        weight(spokes, q.drop_last()) + (spokes[q.last().2 as int].wheel().bits().len()
            - q.last().1)
    }
}

proof fn lemma_weight_remove(spokes: Seq<Spoke>, q: Seq<PrimeInfo>, k: int)
    requires
        0 <= k < q.len(),
    ensures
        weight(spokes, q) == weight(spokes, q.remove(k)) + (spokes[q[k].2 as int].wheel().bits().len()
            - q[k].1),
    decreases q.len(),
{
    if k < q.len() - 1 {
        lemma_weight_remove(spokes, q.drop_last(), k);
        assert(q.remove(k).drop_last() =~= q.drop_last().remove(k));
        assert(q.remove(k).last() == q.last());
    } else {
        assert(q.remove(k) =~= q.drop_last());
    }
}

proof fn lemma_weight_push(spokes: Seq<Spoke>, q: Seq<PrimeInfo>, e: PrimeInfo)
    ensures
        weight(spokes, q.push(e)) == weight(spokes, q) + (spokes[e.2 as int].wheel().bits().len()
            - e.1),
{
    assert(q.push(e).drop_last() =~= q);
}

proof fn lemma_weight_nonneg(spokes: Seq<Spoke>, q: Seq<PrimeInfo>)
    requires
        queue_ok(spokes, q),
    ensures
        weight(spokes, q) >= 0,
    decreases q.len(),
{
    if q.len() > 0 {
        lemma_weight_nonneg(spokes, q.drop_last());
    }
}

proof fn lemma_weight_same(s1: Seq<Spoke>, s2: Seq<Spoke>, q: Seq<PrimeInfo>)
    requires
        queue_ok(s1, q),
        forall|k: int| 0 <= k < 8 ==> #[trigger] s1[k].wheel().bits().len() == s2[k].wheel().bits().len(),
    ensures
        weight(s1, q) == weight(s2, q),
    decreases q.len(),
{
    if q.len() > 0 {
        lemma_weight_same(s1, s2, q.drop_last());
    }
}

/// Takes the least entry out of the queue.
fn pop_min(queue: &mut Vec<PrimeInfo>) -> (r: PrimeInfo)
    requires
        old(queue).len() > 0,
    ensures
        exists|k: int|
            0 <= k < old(queue)@.len() && r == old(queue)@[k] && final(queue)@ == old(queue)@.remove(k),
        forall|i: int| 0 <= i < old(queue)@.len() ==> le(r, #[trigger] old(queue)@[i]),
{
    let mut best: usize = 0;
    let mut i: usize = 1;
    while i < queue.len()
        invariant
            queue@ == old(queue)@,
            best < i <= queue.len(),
            forall|t: int| 0 <= t < i ==> le(queue@[best as int], #[trigger] queue@[t]),
        decreases queue.len() - i,
    {
        let a = queue[i];
        let b = queue[best];
        if a.0 < b.0 || (a.0 == b.0 && (a.1 < b.1 || (a.1 == b.1 && a.2 < b.2))) {
            best = i;
        }
        i = i + 1;
    }
    queue.remove(best)
}

/// Whether `p * p <= max`, without overflow.
fn square_within(p: usize, max: usize) -> (r: bool)
    ensures
        r == (p * p <= max),
{
    match p.checked_mul(p) {
        Some(sq) => sq <= max,
        None => false,
    }
}

/// Takes from the queue the least candidate that is still set in its spoke.
/// A candidate whose bit was cleared since it was queued is read again from its
/// spoke and queued at its new place; the accepted one is followed in the queue
/// by the next candidate of its spoke, if that one's square does not exceed `max`.
pub fn pop_next_prime(spokes: &Vec<Spoke>, min_queue: &mut Vec<PrimeInfo>, max: usize) -> (r:
    Option<PrimeInfo>)
    requires
        spokes_wf(spokes@, max as int),
        queue_ok(spokes@, old(min_queue)@),
        frontier_ok(spokes@, old(min_queue)@, max as int),
        one_per_spoke(old(min_queue)@),
    ensures
        queue_ok(spokes@, final(min_queue)@),
        one_per_spoke(final(min_queue)@),
        old(min_queue)@.len() == 0 ==> r is None,
        forall|t: int|
            0 <= t < old(min_queue)@.len() && (r is None || (#[trigger] old(min_queue)@[t]).2
                != r->Some_0.2) ==> advanced(spokes@, old(min_queue)@[t], final(min_queue)@),
        old(min_queue)@.len() > 0 ==> weight(spokes@, final(min_queue)@) < weight(
            spokes@,
            old(min_queue)@,
        ),
        match r {
            None => final(min_queue)@.len() == 0 && frontier_ok(spokes@, final(min_queue)@, max as int),
            Some(c) => {
                &&& covered_except(spokes@, final(min_queue)@, c.2 as int, c.1 as int, max as int)
                &&& entry_ok(spokes@, c)
                &&& spokes@[c.2 as int].wheel().bits()[c.1 as int]
                &&& forall|i: int|
                    0 <= i < final(min_queue)@.len() ==> le(c, #[trigger] final(min_queue)@[i])
                &&& forall|i: int|
                    0 <= i < final(min_queue)@.len() ==> c.0 < (#[trigger] final(min_queue)@[i]).0
                &&& forall|t: int|
                    0 <= t < old(min_queue)@.len() && (#[trigger] old(min_queue)@[t]).2 == c.2
                        ==> clear_between(spokes@, c.2 as int, old(min_queue)@[t].1 as int, c.1 as int)
            },
        },
{
    if min_queue.len() == 0 {
        return None;
    }
    let ghost w0 = weight(spokes@, min_queue@);
    proof {
        lemma_weight_nonneg(spokes@, min_queue@);
    }
    loop
        invariant
            spokes_wf(spokes@, max as int),
            queue_ok(spokes@, min_queue@),
            min_queue@.len() > 0,
            weight(spokes@, min_queue@) <= w0,
            w0 == weight(spokes@, old(min_queue)@),
            frontier_ok(spokes@, min_queue@, max as int),
            one_per_spoke(min_queue@),
            forall|t: int|
                0 <= t < old(min_queue)@.len() ==> advanced(
                    spokes@,
                    #[trigger] old(min_queue)@[t],
                    min_queue@,
                ),
        decreases weight(spokes@, min_queue@),
    {
        let ghost q0 = min_queue@;
        let elem = pop_min(min_queue);
        let (_, prime_index, spoke_index) = elem;
        proof {
            let k = choose|k: int|
                0 <= k < q0.len() && elem == q0[k] && min_queue@ == q0.remove(k);
            lemma_weight_remove(spokes@, q0, k);
            lemma_frontier_remove(spokes@, q0, k, max as int);
            lemma_one_per_spoke_remove(q0, k);
            lemma_advanced_remove(spokes@, old(min_queue)@, q0, k);
            assert forall|i: int| 0 <= i < min_queue@.len() implies elem.0 < (
            #[trigger] min_queue@[i]).0 && min_queue@[i].2 != spoke_index by {
                let j = if i < k { i } else { i + 1 };
                assert(min_queue@[i] == q0[j]);
                assert(le(elem, q0[j]));
                assert(entry_ok(spokes@, q0[j]));
                assert(q0.remove(k)[i].2 != q0[k].2);
                lemma_values_differ(spokes@, elem, q0[j], max as int);
            }
            assert(covered_but(spokes@, min_queue@, spoke_index as int, prime_index as int, max as int));
            assert(entry_ok(spokes@, q0[k]));
            assert(queue_ok(spokes@, min_queue@)) by {
                assert forall|i: int| 0 <= i < min_queue@.len() implies entry_ok(
                    spokes@,
                    #[trigger] min_queue@[i],
                ) by {
                    if i < k {
                        assert(min_queue@[i] == q0[i]);
                    } else {
                        assert(min_queue@[i] == q0[i + 1]);
                    }
                }
            }
            lemma_weight_nonneg(spokes@, min_queue@);
            assert(spoke_ok(spokes@[spoke_index as int], spoke_index as int, max as int));
        }
        let spoke = &spokes[spoke_index];
        let current = spoke.next_prime_from(prime_index);
        match current {
            Some(current_elem) => {
                if elem.0 == current_elem.0 && elem.1 == current_elem.1 && elem.2 == current_elem.2 {
                    let ghost q1 = min_queue@;
                    let next = spoke.next_prime_from(prime_index + 1);
                    match next {
                        Some(next_elem) => {
                            if square_within(next_elem.0, max) {
                                min_queue.push(next_elem);
                                proof {
                                    lemma_accept_push(
                                        spokes@,
                                        q1,
                                        spoke_index as int,
                                        prime_index as int,
                                        next_elem,
                                        max as int,
                                    );
                                    lemma_weight_push(spokes@, q1, next_elem);
                                    assert(queue_ok(spokes@, min_queue@)) by {
                                        assert forall|i: int| 0 <= i < min_queue@.len() implies entry_ok(
                                            spokes@,
                                            #[trigger] min_queue@[i],
                                        ) by {
                                            if i < q1.len() {
                                                assert(min_queue@[i] == q1[i]);
                                            }
                                        }
                                    }
                                    assert forall|i: int| 0 <= i < min_queue@.len() implies le(
                                        elem,
                                        #[trigger] min_queue@[i],
                                    ) by {
                                        if i < q1.len() {
                                            let k = choose|k: int|
                                                0 <= k < q0.len() && elem == q0[k] && q1 == q0.remove(k);
                                            if i < k {
                                                assert(q1[i] == q0[i]);
                                            } else {
                                                assert(q1[i] == q0[i + 1]);
                                            }
                                        } else {
                                            let w = spokes@[spoke_index as int].wheel();
                                            assert(w.value(prime_index as int) < w.value(next_elem.1 as int));
                                        }
                                    }
                                    assert forall|i: int| 0 <= i < min_queue@.len() implies elem.0 < (
                                    #[trigger] min_queue@[i]).0 by {
                                        if i < q1.len() {
                                            assert(min_queue@[i] == q1[i]);
                                        } else {
                                            let w = spokes@[spoke_index as int].wheel();
                                            assert(w.value(prime_index as int) < w.value(next_elem.1 as int));
                                        }
                                    }
                                    lemma_one_per_spoke_push(q1, next_elem);
                                    assert forall|t: int|
                                        0 <= t < old(min_queue)@.len() && (#[trigger] old(min_queue)@[t]).2
                                            != spoke_index implies advanced(
                                        spokes@,
                                        old(min_queue)@[t],
                                        min_queue@,
                                    ) by {
                                        lemma_advanced_push(spokes@, old(min_queue)@[t], q1, next_elem);
                                    }
                                }
                            } else {
                                proof {
                                    lemma_accept_far(
                                        spokes@,
                                        q1,
                                        spoke_index as int,
                                        prime_index as int,
                                        next_elem,
                                        max as int,
                                    );
                                    assert forall|i: int| 0 <= i < min_queue@.len() implies le(
                                        elem,
                                        #[trigger] min_queue@[i],
                                    ) by {
                                        let k = choose|k: int|
                                            0 <= k < q0.len() && elem == q0[k] && q1 == q0.remove(k);
                                        if i < k {
                                            assert(q1[i] == q0[i]);
                                        } else {
                                            assert(q1[i] == q0[i + 1]);
                                        }
                                    }
                                }
                            }
                        },
                        None => {
                            proof {
                                lemma_accept_none(
                                    spokes@,
                                    q1,
                                    spoke_index as int,
                                    prime_index as int,
                                    max as int,
                                );
                                assert forall|i: int| 0 <= i < min_queue@.len() implies le(
                                    elem,
                                    #[trigger] min_queue@[i],
                                ) by {
                                    let k = choose|k: int|
                                        0 <= k < q0.len() && elem == q0[k] && q1 == q0.remove(k);
                                    if i < k {
                                        assert(q1[i] == q0[i]);
                                    } else {
                                        assert(q1[i] == q0[i + 1]);
                                    }
                                }
                            }
                        },
                    }
                    return Some(elem);
                } else {
                    let ghost q1 = min_queue@;
                    min_queue.push(current_elem);
                    proof {
                        lemma_one_per_spoke_push(q1, current_elem);
                        assert forall|t: int| 0 <= t < old(min_queue)@.len() implies advanced(
                            spokes@,
                            #[trigger] old(min_queue)@[t],
                            min_queue@,
                        ) by {
                            let e = old(min_queue)@[t];
                            if e.2 == spoke_index {
                                assert(clear_between(
                                    spokes@,
                                    spoke_index as int,
                                    e.1 as int,
                                    prime_index as int,
                                ));
                                assert(clear_between(
                                    spokes@,
                                    spoke_index as int,
                                    e.1 as int,
                                    current_elem.1 as int,
                                ));
                            }
                            lemma_advanced_push(spokes@, e, q1, current_elem);
                        }
                        lemma_requeue(
                            spokes@,
                            q1,
                            spoke_index as int,
                            prime_index as int,
                            current_elem,
                            max as int,
                        );
                        lemma_weight_push(spokes@, q1, current_elem);
                        assert(queue_ok(spokes@, min_queue@)) by {
                            assert forall|i: int| 0 <= i < min_queue@.len() implies entry_ok(
                                spokes@,
                                #[trigger] min_queue@[i],
                            ) by {
                                if i < q1.len() {
                                    assert(min_queue@[i] == q1[i]);
                                }
                            }
                        }
                    }
                }
            },
            None => {
                proof {
                    assert forall|t: int| 0 <= t < old(min_queue)@.len() implies advanced(
                        spokes@,
                        #[trigger] old(min_queue)@[t],
                        min_queue@,
                    ) by {
                        let e = old(min_queue)@[t];
                        if e.2 == spoke_index {
                            assert(clear_between(
                                spokes@,
                                spoke_index as int,
                                e.1 as int,
                                prime_index as int,
                            ));
                            assert(spokes@[e.2 as int].wheel().none_from(e.1 as int));
                        }
                    }
                    lemma_drained(
                        spokes@,
                        min_queue@,
                        spoke_index as int,
                        prime_index as int,
                        max as int,
                    );
                }
                if min_queue.len() == 0 {
                    return None;
                }
            },
        }
    }
}

/// Revalidation: a queued candidate whose position was cleared after it was
/// queued is never what `pop_next_prime` returns, since what it returns is a
/// position still set in its spoke.
pub proof fn lemma_stale_not_returned(spokes: Seq<Spoke>, e: PrimeInfo, c: PrimeInfo)
    requires
        !spokes[e.2 as int].wheel().bits()[e.1 as int],
        spokes[c.2 as int].wheel().bits()[c.1 as int],
    ensures
        c != e,
{
}

/// The eight spokes up to `max`, every term set.
pub fn new_spokes(max: usize) -> (r: Vec<Spoke>)
    ensures
        spokes_wf(r@, max as int),
        all_marks_sound(r@),
        forall|k: int|
            0 <= k < 8 ==> #[trigger] r@[k].wheel().bits() == Seq::new(
                span(rp(k), 30, max as int) as nat,
                |_i: int| true,
            ),
{
    let mut spokes: Vec<Spoke> = Vec::new();
    let mut i: usize = 0;
    while i < 8
        invariant
            i <= 8,
            spokes.len() == i,
            forall|k: int| 0 <= k < i ==> #[trigger] spoke_ok(spokes@[k], k, max as int),
            forall|k: int| 0 <= k < i ==> #[trigger] marks_sound(spokes@[k]),
            forall|k: int|
                0 <= k < i ==> #[trigger] spokes@[k].wheel().bits() == Seq::new(
                    span(rp(k), 30, max as int) as nat,
                    |_i: int| true,
                ),
        decreases 8 - i,
    {
        let offset = relative_prime(i);
        let sp = Spoke::new(i, offset, MOD, max);
        let ghost before = spokes@;
        spokes.push(sp);
        assert forall|k: int| 0 <= k <= i implies #[trigger] marks_sound(spokes@[k]) by {
            if k < i {
                assert(spokes@[k] == before[k]);
            }
        }
        assert forall|k: int| 0 <= k <= i implies #[trigger] spokes@[k].wheel().bits() == Seq::new(
            span(rp(k), 30, max as int) as nat,
            |_i: int| true,
        ) by {
            if k < i {
                assert(spokes@[k] == before[k]);
            }
        }
        i = i + 1;
    }
    spokes
}

/// The first candidate of each spoke whose square does not exceed `max`.
pub fn seed_queue(spokes: &Vec<Spoke>, max: usize) -> (r: Vec<PrimeInfo>)
    requires
        spokes_wf(spokes@, max as int),
    ensures
        queue_ok(spokes@, r@),
        frontier_ok(spokes@, r@, max as int),
        one_per_spoke(r@),
        forall|a: int, b: int| 0 <= a < b < r@.len() ==> (#[trigger] r@[a]).2 < (#[trigger] r@[b]).2,
        forall|t: int| 0 <= t < r@.len() ==> seeded(spokes@, #[trigger] r@[t], max as int),
        forall|k: int, j: int|
            0 <= k < 8 && #[trigger] spokes@[k].wheel().is_first_one(0, j) && spokes@[k].wheel().value(j)
                * spokes@[k].wheel().value(j) <= max ==> exists|t: int|
                0 <= t < r@.len() && (#[trigger] r@[t]).2 == k,
{
    let mut min_queue: Vec<PrimeInfo> = Vec::new();
    let mut i: usize = 0;
    while i < 8
        invariant
            i <= 8,
            spokes_wf(spokes@, max as int),
            queue_ok(spokes@, min_queue@),
            forall|a: int, b: int|
                0 <= a < b < min_queue@.len() ==> (#[trigger] min_queue@[a]).2 < (
                #[trigger] min_queue@[b]).2,
            forall|t: int|
                0 <= t < min_queue@.len() ==> seeded(spokes@, #[trigger] min_queue@[t], max as int)
                    && min_queue@[t].2 < i,
            forall|k: int, j: int|
                0 <= k < i && #[trigger] spokes@[k].wheel().is_first_one(0, j) && spokes@[k].wheel().value(
                    j,
                ) * spokes@[k].wheel().value(j) <= max ==> exists|t: int|
                    0 <= t < min_queue@.len() && (#[trigger] min_queue@[t]).2 == k,
            forall|k: int, j: int|
                (k < i || k >= 8) ==> #[trigger] frontier_at(spokes@, min_queue@, k, j, max as int),
        decreases 8 - i,
    {
        proof {
            assert(spoke_ok(spokes@[i as int], i as int, max as int));
        }
        let ghost q = min_queue@;
        let first = spokes[i].next_prime_from(0);
        if let Some(elem) = first {
            if square_within(elem.0, max) {
                min_queue.push(elem);
                assert forall|t: int| 0 <= t < min_queue@.len() implies entry_ok(
                    spokes@,
                    #[trigger] min_queue@[t],
                ) by {
                    if t < q.len() {
                        assert(min_queue@[t] == q[t]);
                    }
                }
                assert forall|k: int, j: int|
                    (k < i + 1 || k >= 8) implies #[trigger] frontier_at(spokes@, min_queue@, k, j, max as int) by {
                    if k == i {
                        if needs_cover(spokes@, k, j, max as int) {
                            assert(elem.1 <= j);
                        }
                    }
                    lemma_frontier_push(spokes@, q, elem, k, j, max as int);
                }
            } else {
                let ghost w = spokes@[i as int].wheel();
                assert forall|k: int, j: int|
                    (k < i + 1 || k >= 8) implies #[trigger] frontier_at(spokes@, min_queue@, k, j, max as int) by {
                    if k == i && needs_cover(spokes@, k, j, max as int) {
                        assert(elem.1 <= j);
                        assert(w.value(elem.1 as int) <= w.value(j)) by (nonlinear_arith)
                            requires
                                elem.1 <= j,
                                w.modulus() > 0,
                                w.value(elem.1 as int) == w.offset() + elem.1 * w.modulus(),
                                w.value(j) == w.offset() + j * w.modulus(),
                        ;
                        assert(w.value(j) * w.value(j) > max) by (nonlinear_arith)
                            requires
                                elem.0 <= w.value(j),
                                elem.0 * elem.0 > max,
                                elem.0 >= 0,
                        ;
                    }
                }
            }
        } else {
            assert forall|k: int, j: int|
                (k < i + 1 || k >= 8) implies #[trigger] frontier_at(spokes@, min_queue@, k, j, max as int) by {
                if k < i || k >= 8 {
                }
            }
        }
        proof {
            let w = spokes@[i as int].wheel();
            assert forall|a: int, b: int|
                0 <= a < b < min_queue@.len() implies (#[trigger] min_queue@[a]).2 < (
                #[trigger] min_queue@[b]).2 by {
                assert(min_queue@[a] == q[a]);
                if b < q.len() {
                    assert(min_queue@[b] == q[b]);
                }
            }
            assert forall|t: int| 0 <= t < min_queue@.len() implies seeded(
                spokes@,
                #[trigger] min_queue@[t],
                max as int,
            ) && min_queue@[t].2 < i + 1 by {
                if t < q.len() {
                    assert(min_queue@[t] == q[t]);
                }
            }
            assert forall|k: int, j: int|
                0 <= k < i + 1 && #[trigger] spokes@[k].wheel().is_first_one(0, j) && spokes@[k].wheel().value(
                    j,
                ) * spokes@[k].wheel().value(j) <= max implies exists|t: int|
                0 <= t < min_queue@.len() && (#[trigger] min_queue@[t]).2 == k by {
                if k < i {
                    let t = choose|t: int| 0 <= t < q.len() && (#[trigger] q[t]).2 == k;
                    assert(min_queue@[t] == q[t]);
                } else {
                    match first {
                        Some(e) => {
                            if !w.bits()[j] || !w.bits()[e.1 as int] {
                            } else if j < e.1 {
                            } else if e.1 < j {
                            } else {
                                if q.len() < min_queue@.len() {
                                    assert(min_queue@[q.len() as int] == e);
                                }
                            }
                        },
                        None => {},
                    }
                }
            }
        }
        i = i + 1;
    }
    proof {
        assert forall|a: int, b: int| 0 <= a < b < min_queue@.len() implies (#[trigger] min_queue@[a]).2
            != (#[trigger] min_queue@[b]).2 by {}
    }
    min_queue
}

/// Sends the marking of each hop of `prime`, a confirmed prime of spoke
/// `spoke`, to the spoke that holds the hop's composite.
pub fn fan_out(spokes: &mut Vec<Spoke>, prime: usize, spoke: usize, max: usize)
    requires
        spokes_wf(old(spokes)@, max as int),
        all_marks_sound(old(spokes)@),
        spoke < 8,
        prime >= 7,
        prime % 30 == rp(spoke as int) % 30,
    ensures
        spokes_wf(final(spokes)@, max as int),
        all_marks_sound(final(spokes)@),
        shrinks(old(spokes)@, final(spokes)@),
        done(final(spokes)@, prime as int, max as int),
{
    let composites = hops(prime, spoke, max);
    let mut j: usize = 0;
    let ghost s_start = spokes@;
    while j < composites.len()
        invariant
            j <= composites.len(),
            spokes_wf(spokes@, max as int),
            all_marks_sound(spokes@),
            prime >= 7,
            prime % 30 == rp(spoke as int) % 30,
            spoke < 8,
            composites.len() <= 8,
            s_start == old(spokes)@,
            spokes_wf(s_start, max as int),
            shrinks(s_start, spokes@),
            forall|t: int, m: int|
                0 <= t < j ==> #[trigger] hop_cleared(spokes@, prime as int, spoke as int, t, m, max as int),
            composites.len() < 8 ==> hop(prime as int, spoke as int, composites.len() as int) > max,
            forall|t: int|
                0 <= t < composites.len() ==> {
                    &&& #[trigger] composites@[t].0 == hop(prime as int, spoke as int, t)
                    &&& composites@[t].0 <= max
                    &&& composites@[t].1 == route(spoke as int, t)
                },
        decreases composites.len() - j,
    {
        let (composite, dest) = composites[j];
        proof {
            crate::wheel::lemma_prefix_nonneg(spoke as int, j as int);
            assert(0 <= route(spoke as int, j as int) < 8) by {
                crate::wheel::lemma_route_range(spoke as int, j as int);
            }
            assert(hop(prime as int, spoke as int, j as int) >= prime * prime) by (nonlinear_arith)
                requires
                    hop(prime as int, spoke as int, j as int) == prime * (prime + crate::wheel::prefix(
                        spoke as int,
                        j as int,
                    )),
                    crate::wheel::prefix(spoke as int, j as int) >= 0,
                    prime >= 7,
            ;
            assert(prime * prime >= 49) by (nonlinear_arith)
                requires
                    prime >= 7,
            ;
            assert(spoke_ok(spokes@[dest as int], dest as int, max as int));
            assert(marks_sound(spokes@[dest as int]));
            crate::wheel::lemma_wheel_routing(prime as int, spoke as int, j as int);
        }
        let ghost before = spokes@;
        let mut target = spokes.remove(dest);
        let ghost old_target = target;
        target.sieve(prime, composite);
        proof {
            lemma_mark_sound(
                old_target,
                target,
                dest as int,
                max as int,
                prime as int,
                prime + crate::wheel::prefix(spoke as int, j as int),
                composite as int,
            );
        }
        spokes.insert(dest, target);
        proof {
            assert forall|k: int| 0 <= k < 8 implies #[trigger] marks_sound(spokes@[k]) by {
                if k != dest {
                    assert(spokes@[k] == before[k]);
                }
            }
            assert(spokes@ =~= before.update(dest as int, target));
            assert(shrinks(before, spokes@)) by {
                assert forall|k: int, i: int|
                    0 <= k < 8 && 0 <= i < before[k].wheel().bits().len() && !before[k].wheel().bits()[i] implies !(
                    #[trigger] spokes@[k].wheel().bits()[i]) by {
                    if k != dest {
                        assert(spokes@[k] == before[k]);
                    }
                }
            }
            assert forall|k: int| 0 <= k < 8 implies #[trigger] spoke_ok(spokes@[k], k, max as int) by {
                if k != dest {
                    assert(spokes@[k] == before[k]);
                    assert(spoke_ok(before[k], k, max as int));
                }
            }
            lemma_shrinks_trans(s_start, before, spokes@, max as int);
            let rel = prime + crate::wheel::prefix(spoke as int, j as int);
            assert forall|t: int, m: int|
                0 <= t < j + 1 implies #[trigger] hop_cleared(spokes@, prime as int, spoke as int, t, m, max as int) by {
                if t < j {
                    assert(hop_cleared(before, prime as int, spoke as int, t, m, max as int));
                    let r2 = prime + crate::wheel::prefix(spoke as int, t);
                    if m >= r2 && (m - r2) % 30 == 0 && prime * m <= max {
                        lemma_cleared_kept(before, spokes@, prime * m, max as int);
                    }
                } else {
                    if m >= rel && (m - rel) % 30 == 0 && prime * m <= max {
                        lemma_hop_new(
                            old_target,
                            target,
                            dest as int,
                            max as int,
                            prime as int,
                            rel,
                            composite as int,
                            m,
                        );
                        assert(spokes@[dest as int] == target);
                    }
                }
            }
            assert(spokes@ =~= before.update(dest as int, target));
            assert forall|k: int| 0 <= k < 8 implies #[trigger] spoke_ok(spokes@[k], k, max as int) by {
                if k != dest {
                    assert(spokes@[k] == before[k]);
                    assert(spoke_ok(before[k], k, max as int));
                }
            }
        }
        j = j + 1;
    }
    proof {
        assert forall|m: int| #[trigger] multiple_cleared(spokes@, prime as int, m, max as int) by {
            if prime <= m && coprime30(m) && prime * m <= max {
                lemma_fan_out_covers(spokes@, prime as int, spoke as int, m, max as int, composites.len() as int);
            }
        }
    }
}

proof fn lemma_done_kept(s0: Seq<Spoke>, s1: Seq<Spoke>, p: int, max: int)
    requires
        spokes_wf(s0, max),
        spokes_wf(s1, max),
        shrinks(s0, s1),
        done(s0, p, max),
    ensures
        done(s1, p, max),
{
    assert forall|m: int| #[trigger] multiple_cleared(s1, p, m, max) by {
        assert(multiple_cleared(s0, p, m, max));
        if p <= m && coprime30(m) && p * m <= max {
            lemma_cleared_kept(s0, s1, p * m, max);
        }
    }
}

proof fn lemma_frontier_after_fan_out(
    s0: Seq<Spoke>,
    s1: Seq<Spoke>,
    q: Seq<PrimeInfo>,
    c: PrimeInfo,
    max: int,
)
    requires
        spokes_wf(s0, max),
        spokes_wf(s1, max),
        covered_except(s0, q, c.2 as int, c.1 as int, max),
        shrinks(s0, s1),
        done(s1, c.0 as int, max),
        entry_ok(s0, c),
    ensures
        frontier_ok(s1, q, max),
{
    assert forall|k: int, i: int| #[trigger] frontier_at(s1, q, k, i, max) by {
        if needs_cover(s1, k, i, max) {
            assert(spoke_ok(s0[k], k, max));
            assert(spoke_ok(s1[k], k, max));
            assert(s0[k].wheel().bits()[i]);
            assert(s0[k].wheel().value(i) == s1[k].wheel().value(i));
            assert(needs_cover(s0, k, i, max));
            assert(frontier_at(s0, q, k, i, max) || (k == c.2 && i == c.1));
            if frontier_at(s0, q, k, i, max) {
                if done(s0, s0[k].wheel().value(i), max) {
                    lemma_done_kept(s0, s1, s0[k].wheel().value(i), max);
                }
            }
        }
    }
}

proof fn lemma_fan_out_covers(spokes: Seq<Spoke>, prime: int, s: int, m: int, max: int, n: int)
    requires
        0 <= s < 8,
        prime >= 7,
        prime % 30 == rp(s) % 30,
        prime <= m,
        coprime30(m),
        prime * m <= max,
        0 <= n <= 8,
        n < 8 ==> hop(prime, s, n) > max,
        forall|t: int, mm: int| 0 <= t < n ==> #[trigger] hop_cleared(spokes, prime, s, t, mm, max),
    ensures
        is_cleared(spokes, prime * m),
{
    let d = (m - prime) % 30;
    vstd::arithmetic::div_mod::lemma_fundamental_div_mod(m - prime, 30);
    vstd::arithmetic::div_mod::lemma_add_mod_noop(prime, m - prime, 30);
    vstd::arithmetic::div_mod::lemma_add_mod_noop(rp(s), d, 30);
    vstd::arithmetic::div_mod::lemma_small_mod(d as nat, 30);
    assert((rp(s) + d) % 30 == m % 30);
    vstd::arithmetic::div_mod::lemma_mod_mod(rp(s) + d, 2, 15);
    vstd::arithmetic::div_mod::lemma_mod_mod(rp(s) + d, 3, 10);
    vstd::arithmetic::div_mod::lemma_mod_mod(rp(s) + d, 5, 6);
    vstd::arithmetic::div_mod::lemma_mod_mod(m, 2, 15);
    vstd::arithmetic::div_mod::lemma_mod_mod(m, 3, 10);
    vstd::arithmetic::div_mod::lemma_mod_mod(m, 5, 6);
    crate::wheel::lemma_rp_range(s);
    let j = crate::wheel::lemma_wheel_cover(s, d);
    let rel = prime + crate::wheel::prefix(s, j);
    assert(m - rel == 30 * ((m - prime) / 30));
    vstd::arithmetic::div_mod::lemma_mod_multiples_basic((m - prime) / 30, 30);
    assert((m - rel) % 30 == 0);
    if j < n {
        assert(hop_cleared(spokes, prime, s, j, m, max));
    } else {
        if n < j {
            crate::wheel::lemma_prefix_increasing(s, n, j);
        }
        crate::wheel::lemma_prefix_nonneg(s, n);
        assert(hop(prime, s, n) <= prime * m) by (nonlinear_arith)
            requires
                hop(prime, s, n) == prime * (prime + crate::wheel::prefix(s, n)),
                crate::wheel::prefix(s, n) <= crate::wheel::prefix(s, j),
                prime + crate::wheel::prefix(s, j) <= m,
                prime >= 7,
        ;
    }
}

proof fn lemma_mark_sound(
    s0: Spoke,
    s1: Spoke,
    k: int,
    max: int,
    prime: int,
    rel: int,
    composite: int,
)
    requires
        0 <= k < 8,
        spoke_ok(s0, k, max),
        marks_sound(s0),
        s1.wheel().offset() == s0.wheel().offset(),
        s1.wheel().modulus() == s0.wheel().modulus(),
        s1.wheel().bits() == cleared(
            s0.wheel().bits(),
            composite / 30 - rp(k) / 30,
            prime,
        ),
        composite == prime * rel,
        rel >= prime >= 7,
        composite % 30 == rp(k) % 30,
    ensures
        marks_sound(s1),
{
    crate::wheel::lemma_rp_range(k);
    let idx0 = composite / 30 - rp(k) / 30;
    assert(prime * rel >= 49) by (nonlinear_arith)
        requires
            rel >= prime >= 7,
    ;
    assert(s0.wheel().value(idx0) == composite);
    vstd::arithmetic::div_mod::lemma_mod_multiples_basic(rel, prime);
    assert((rel * prime) % prime == 0);
    assert(composite == rel * prime) by (nonlinear_arith)
        requires
            composite == prime * rel,
    ;
    assert forall|i: int|
        0 <= i < s1.wheel().bits().len() && !#[trigger] s1.wheel().bits()[i] implies has_factor(
        s1.wheel().value(i),
    ) by {
        if !s0.wheel().bits()[i] {
            assert(has_factor(s0.wheel().value(i)));
        } else {
            assert(i >= idx0 && (i - idx0) % prime == 0);
            let t = (i - idx0) / prime;
            vstd::arithmetic::div_mod::lemma_fundamental_div_mod(i - idx0, prime);
            assert(i - idx0 == prime * t);
            assert(t >= 0) by (nonlinear_arith)
                requires
                    i - idx0 == prime * t,
                    i - idx0 >= 0,
                    prime > 0,
            ;
            let v = s1.wheel().value(i);
            assert(v == composite + 30 * (i - idx0));
            assert(v == prime * (30 * t) + composite) by (nonlinear_arith)
                requires
                    v == composite + 30 * (i - idx0),
                    i - idx0 == prime * t,
            ;
            vstd::arithmetic::div_mod::lemma_mod_multiples_vanish(30 * t, composite, prime);
            assert(v % prime == 0);
            assert(v >= composite);
            assert(composite > prime) by (nonlinear_arith)
                requires
                    composite == prime * rel,
                    rel >= prime >= 7,
            ;
        }
    }
}

/// `x` is an entry of `l`.
pub open spec fn listed(l: Seq<usize>, x: int) -> bool {
    exists|u: int| 0 <= u < l.len() && #[trigger] l[u] as int == x
}

/// A prime above 5 lies in the residue class of one of the spokes.
proof fn lemma_prime_residue(x: int) -> (k: int)
    requires
        is_prime(x),
        x >= 7,
    ensures
        0 <= k < 8,
        x % 30 == rp(k) % 30,
{
    assert(x % 2 != 0);
    assert(x % 3 != 0);
    assert(x % 5 != 0);
    vstd::arithmetic::div_mod::lemma_mod_mod(x, 2, 15);
    vstd::arithmetic::div_mod::lemma_mod_mod(x, 3, 10);
    vstd::arithmetic::div_mod::lemma_mod_mod(x, 5, 6);
    let r = x % 30;
    assert(0 <= r < 30);
    assert(r % 2 != 0 && r % 3 != 0 && r % 5 != 0);
    assert(r == 1 || r == 7 || r == 11 || r == 13 || r == 17 || r == 19 || r == 23 || r == 29);
    if r == 7 {
        0
    } else if r == 11 {
        1
    } else if r == 13 {
        2
    } else if r == 17 {
        3
    } else if r == 19 {
        4
    } else if r == 23 {
        5
    } else if r == 29 {
        6
    } else {
        7
    }
}

/// A prime of a spoke's class up to `max` is still in that spoke's list.
proof fn lemma_prime_in_spoke(sp: Spoke, k: int, max: int, l: Seq<usize>, x: int)
    requires
        0 <= k < 8,
        spoke_ok(sp, k, max),
        marks_sound(sp),
        l.map_values(|v: usize| v as int) == sp.wheel().values(),
        is_prime(x),
        7 <= x <= max,
        x % 30 == rp(k) % 30,
    ensures
        listed(l, x),
{
    crate::wheel::lemma_rp_range(k);
    if k == 7 {
        assert(x % 30 == 1);
        assert(x >= 31);
    }
    assert(x >= rp(k));
    let i = (x - rp(k)) / 30;
    assert(x == rp(k) + 30 * i);
    assert(i >= 0);
    assert(i < span(rp(k), 30, max));
    let w = sp.wheel();
    assert(w.value(i) == x);
    if !w.bits()[i] {
        assert(has_factor(x));
        let d = choose|d: int| 1 < d < x && #[trigger] (x % d) == 0;
        assert(x % d != 0);
    }
    w.lemma_values();
    assert(w.values().contains(x));
    let t = choose|t: int| 0 <= t < w.values().len() && w.values()[t] == x;
    assert(l.map_values(|v: usize| v as int).len() == l.len());
    assert(l.map_values(|v: usize| v as int)[t] == l[t] as int);
}

/// The multiples that hop `t` of `p` (of spoke `s`) reaches are cleared.
pub open spec fn hop_cleared(spokes: Seq<Spoke>, p: int, s: int, t: int, m: int, max: int) -> bool {
    let rel = p + crate::wheel::prefix(s, t);
    m >= rel && (m - rel) % 30 == 0 && p * m <= max ==> is_cleared(spokes, p * m)
}

proof fn lemma_hop_new(
    s0: Spoke,
    s1: Spoke,
    k: int,
    max: int,
    prime: int,
    rel: int,
    composite: int,
    m: int,
)
    requires
        0 <= k < 8,
        spoke_ok(s0, k, max),
        s1.wheel().bits() == cleared(
            s0.wheel().bits(),
            composite / 30 - rp(k) / 30,
            prime,
        ),
        composite == prime * rel,
        rel >= prime >= 7,
        composite % 30 == rp(k) % 30,
        m >= rel,
        (m - rel) % 30 == 0,
        prime * m <= max,
    ensures
        class_of(prime * m) == k,
        0 <= (prime * m - rp(k)) / 30 < s1.wheel().bits().len(),
        !s1.wheel().bits()[(prime * m - rp(k)) / 30],
{
    crate::wheel::lemma_rp_range(k);
    let idx0 = composite / 30 - rp(k) / 30;
    assert(prime * rel >= 49) by (nonlinear_arith)
        requires
            rel >= prime >= 7,
    ;
    assert(s0.wheel().value(idx0) == composite);
    let tt = (m - rel) / 30;
    vstd::arithmetic::div_mod::lemma_fundamental_div_mod(m - rel, 30);
    assert(m == rel + 30 * tt);
    assert(tt >= 0);
    let x = prime * m;
    assert(x == composite + 30 * (prime * tt)) by (nonlinear_arith)
        requires
            x == prime * m,
            m == rel + 30 * tt,
            composite == prime * rel,
    ;
    assert(prime * tt >= 0) by (nonlinear_arith)
        requires
            prime >= 7,
            tt >= 0,
    ;
    vstd::arithmetic::div_mod::lemma_mod_multiples_vanish(prime * tt, composite, 30);
    lemma_class_of_residue(x, k);
    let a = idx0 + prime * tt;
    assert(x - rp(k) == 30 * a);
    vstd::arithmetic::div_mod::lemma_div_multiples_vanish(a, 30);
    assert((x - rp(k)) / 30 == a);
    vstd::arithmetic::div_mod::lemma_mod_multiples_basic(tt, prime);
    assert((tt * prime) % prime == 0);
    assert(a - idx0 == tt * prime) by (nonlinear_arith)
        requires
            a == idx0 + prime * tt,
    ;
    assert(a < span(rp(k), 30, max));
}

proof fn lemma_shrinks_trans(s0: Seq<Spoke>, s1: Seq<Spoke>, s2: Seq<Spoke>, max: int)
    requires
        spokes_wf(s0, max),
        spokes_wf(s1, max),
        shrinks(s0, s1),
        shrinks(s1, s2),
    ensures
        shrinks(s0, s2),
{
    assert forall|k: int, i: int|
        0 <= k < 8 && 0 <= i < s0[k].wheel().bits().len() && !s0[k].wheel().bits()[i] implies !(
        #[trigger] s2[k].wheel().bits()[i]) by {
        assert(spoke_ok(s0[k], k, max));
        assert(spoke_ok(s1[k], k, max));
        assert(!s1[k].wheel().bits()[i]);
    }
}

proof fn lemma_cleared_kept(s0: Seq<Spoke>, s1: Seq<Spoke>, x: int, max: int)
    requires
        spokes_wf(s0, max),
        spokes_wf(s1, max),
        shrinks(s0, s1),
        0 <= class_of(x) < 8,
        is_cleared(s0, x),
    ensures
        is_cleared(s1, x),
{
    let k = class_of(x);
    assert(spoke_ok(s0[k], k, max));
    assert(spoke_ok(s1[k], k, max));
    let i = (x - rp(k)) / 30;
    assert(!s1[k].wheel().bits()[i]);
}

proof fn lemma_least_divisor(x: int, d: int) -> (p: int)
    requires
        2 <= d <= x,
        forall|e: int| 2 <= e < d ==> #[trigger] (x % e) != 0,
    ensures
        2 <= p <= x,
        x % p == 0,
        forall|e: int| 2 <= e < p ==> #[trigger] (x % e) != 0,
    decreases x - d,
{
    if x % d == 0 {
        d
    } else {
        if d == x {
            vstd::arithmetic::div_mod::lemma_mod_self_0(x);
        }
        lemma_least_divisor(x, d + 1)
    }
}

/// The least divisor above 1 of a number that is not prime is a prime whose
/// square does not exceed it.
proof fn lemma_least_prime_factor(x: int) -> (p: int)
    requires
        x >= 2,
        !is_prime(x),
    ensures
        is_prime(p),
        x % p == 0,
        p * p <= x,
{
    let p = lemma_least_divisor(x, 2);
    vstd::arithmetic::div_mod::lemma_fundamental_div_mod(x, p);
    let a = x / p;
    assert(x == p * a);
    assert forall|e: int| 1 < e < p implies #[trigger] (p % e) != 0 by {
        if p % e == 0 {
            vstd::arithmetic::div_mod::lemma_fundamental_div_mod(p, e);
            let b = p / e;
            assert(x == e * (b * a)) by (nonlinear_arith)
                requires
                    x == p * a,
                    p == e * b,
            ;
            vstd::arithmetic::div_mod::lemma_mod_multiples_basic(b * a, e);
            assert(x % e == 0);
        }
    }
    let d = choose|d: int| 1 < d < x && #[trigger] (x % d) == 0;
    assert(p < x);
    assert(a >= 2) by (nonlinear_arith)
        requires
            x == p * a,
            p < x,
            p >= 2,
    ;
    vstd::arithmetic::div_mod::lemma_mod_multiples_basic(p, a);
    assert(x % a == 0);
    assert(a <= x) by (nonlinear_arith)
        requires
            x == p * a,
            p >= 2,
            a >= 2,
    ;
    assert(a >= p);
    assert(p * p <= x) by (nonlinear_arith)
        requires
            x == p * a,
            a >= p,
            p >= 2,
    ;
    p
}

proof fn lemma_factor_coprime(p: int, m: int)
    requires
        coprime30(p * m),
    ensures
        coprime30(m),
{
    vstd::arithmetic::div_mod::lemma_mul_mod_noop_general(p, m, 2);
    vstd::arithmetic::div_mod::lemma_mul_mod_noop_general(p, m, 3);
    vstd::arithmetic::div_mod::lemma_mul_mod_noop_general(p, m, 5);
    if m % 2 == 0 {
        assert((p * 0) % 2 == 0);
    }
    if m % 3 == 0 {
        assert((p * 0) % 3 == 0);
    }
    if m % 5 == 0 {
        assert((p * 0) % 5 == 0);
    }
}

/// When the queue has run dry, every position still set stands for a prime.
proof fn lemma_set_is_prime(spokes: Seq<Spoke>, k: int, i: int, max: int)
    requires
        spokes_wf(spokes, max),
        all_marks_sound(spokes),
        frontier_ok(spokes, Seq::empty(), max),
        0 <= k < 8,
        0 <= i < spokes[k].wheel().bits().len(),
        spokes[k].wheel().bits()[i],
    ensures
        is_prime(spokes[k].wheel().value(i)),
{
    assert(spoke_ok(spokes[k], k, max));
    let x = spokes[k].wheel().value(i);
    crate::wheel::lemma_rp_range(k);
    vstd::arithmetic::div_mod::lemma_mod_multiples_vanish(i, rp(k), 30);
    assert(x % 30 == rp(k) % 30);
    lemma_residue_coprime(x, k);
    assert(x <= max);
    if !is_prime(x) {
        let p = lemma_least_prime_factor(x);
        assert(p != 2 && p != 3 && p != 5);
        assert(p != 4 && p != 6) by {
            if p == 4 || p == 6 {
                assert(p % 2 != 0);
            }
        }
        assert(p >= 7);
        assert(p % 2 != 0 && p % 3 != 0 && p % 5 != 0);
        lemma_class(p);
        let kp = class_of(p);
        let ip = (p - rp(kp)) / 30;
        assert(spoke_ok(spokes[kp], kp, max));
        let w = spokes[kp].wheel();
        assert(w.value(ip) == p);
        assert(p <= x) by (nonlinear_arith)
            requires
                p * p <= x,
                p >= 7,
        ;
        assert(ip < span(rp(kp), 30, max));
        if !w.bits()[ip] {
            assert(marks_sound(spokes[kp]));
            assert(has_factor(p));
            let d = choose|d: int| 1 < d < p && #[trigger] (p % d) == 0;
        }
        assert(needs_cover(spokes, kp, ip, max));
        assert(frontier_at(spokes, Seq::empty(), kp, ip, max));
        assert(done(spokes, p, max));
        vstd::arithmetic::div_mod::lemma_fundamental_div_mod(x, p);
        let m = x / p;
        assert(x == p * m);
        assert(m >= p) by (nonlinear_arith)
            requires
                x == p * m,
                p * p <= x,
                p >= 7,
        ;
        lemma_factor_coprime(p, m);
        assert(multiple_cleared(spokes, p, m, max));
        assert(is_cleared(spokes, x));
        lemma_class_of_residue(x, k);
        assert((x - rp(k)) / 30 == i);
    }
}

proof fn lemma_small_primes(x: int)
    requires
        x == 2 || x == 3 || x == 5,
    ensures
        is_prime(x),
{
    assert forall|d: int| 1 < d < x implies #[trigger] (x % d) != 0 by {
        assert(d == 2 || d == 3 || d == 4);
    }
}

proof fn lemma_list_prime(spokes: Seq<Spoke>, k: int, max: int, l: Seq<usize>, u: int)
    requires
        spokes_wf(spokes, max),
        all_marks_sound(spokes),
        frontier_ok(spokes, Seq::empty(), max),
        0 <= k < 8,
        l.map_values(|v: usize| v as int) == spokes[k].wheel().values(),
        0 <= u < l.len(),
    ensures
        is_prime(l[u] as int),
{
    let w = spokes[k].wheel();
    lemma_ones(w.bits());
    assert(l.map_values(|v: usize| v as int).len() == l.len());
    assert(l.map_values(|v: usize| v as int)[u] == l[u] as int);
    let i = ones(w.bits())[u];
    assert(w.values()[u] == w.value(i));
    lemma_set_is_prime(spokes, k, i, max);
}

/// A finished spoke's list: ascending, in the residue class of spoke `k`, and
/// between 7 and `max`.
pub open spec fn spoke_list_ok(l: Seq<usize>, k: int, max: int) -> bool {
    &&& strictly_ascending(l)
    &&& forall|i: int|
        0 <= i < l.len() ==> #[trigger] l[i] % 30 == rp(k) % 30 && 7 <= l[i] <= max
}

proof fn lemma_spoke_list(sp: Spoke, k: int, max: int, l: Seq<usize>)
    requires
        0 <= k < 8,
        spoke_ok(sp, k, max),
        l.map_values(|v: usize| v as int) == sp.wheel().values(),
    ensures
        spoke_list_ok(l, k, max),
{
    let bits = sp.wheel().bits();
    lemma_ones(bits);
    crate::wheel::lemma_rp_range(k);
    assert forall|i: int| 0 <= i < l.len() implies #[trigger] l[i] % 30 == rp(k) % 30 && 7 <= l[i]
        <= max by {
        assert(l.map_values(|v: usize| v as int)[i] == l[i] as int);
        assert(l.map_values(|v: usize| v as int).len() == l.len());
        assert(sp.wheel().values().len() == ones(bits).len());
        let o = ones(bits)[i];
        assert(sp.wheel().values()[i] == sp.wheel().value(o));
        assert(0 <= o < bits.len());
        assert(l[i] == rp(k) + o * 30);
        assert(o < span(rp(k), 30, max));
    }
    assert forall|i: int, j: int| 0 <= i < j < l.len() implies l[i] < l[j] by {
        assert(l.map_values(|v: usize| v as int)[i] == l[i] as int);
        assert(l.map_values(|v: usize| v as int)[j] == l[j] as int);
        assert(l.map_values(|v: usize| v as int).len() == l.len());
        assert(sp.wheel().values().len() == ones(bits).len());
        assert(ones(bits)[i] < ones(bits)[j]);
        assert(sp.wheel().values()[i] == sp.wheel().value(ones(bits)[i]));
        assert(sp.wheel().values()[j] == sp.wheel().value(ones(bits)[j]));
    }
}

proof fn lemma_queue_transfer(s1: Seq<Spoke>, s2: Seq<Spoke>, q: Seq<PrimeInfo>, max: int)
    requires
        spokes_wf(s1, max),
        spokes_wf(s2, max),
        queue_ok(s1, q),
    ensures
        queue_ok(s2, q),
        weight(s1, q) == weight(s2, q),
{
    assert forall|k: int| 0 <= k < 8 implies #[trigger] s1[k].wheel().bits().len() == s2[k].wheel().bits().len() by {
        assert(spoke_ok(s1[k], k, max));
        assert(spoke_ok(s2[k], k, max));
    }
    assert forall|i: int| 0 <= i < q.len() implies entry_ok(s2, #[trigger] q[i]) by {
        assert(entry_ok(s1, q[i]));
        assert(spoke_ok(s1[q[i].2 as int], q[i].2 as int, max));
        assert(spoke_ok(s2[q[i].2 as int], q[i].2 as int, max));
    }
    lemma_weight_same(s1, s2, q);
}

/// The primes that the wheel skips, those not above `max`.
fn small_primes_upto(max: usize) -> (r: Vec<usize>)
    ensures
        strictly_ascending(r@),
        forall|x: usize| r@.contains(x) <==> (x == 2 || x == 3 || x == 5) && x <= max,
{
    let small = SMALL_PRIMES;
    let mut r: Vec<usize> = Vec::new();
    if small[0] <= max {
        r.push(small[0]);
    }
    if small[1] <= max {
        r.push(small[1]);
    }
    if small[2] <= max {
        r.push(small[2]);
    }
    assert forall|x: usize| r@.contains(x) <==> (x == 2 || x == 3 || x == 5) && x <= max by {
        if r@.contains(x) {
            let i = choose|i: int| 0 <= i < r@.len() && r@[i] == x;
        }
        if x == 2 && x <= max {
            assert(r@[0] == x);
        }
        if x == 3 && x <= max {
            assert(r@[1] == x);
        }
        if x == 5 && x <= max {
            assert(r@[2] == x);
        }
    }
    r
}

/// All primes up to `max`, ascending: the wheel sieve run to its end over the
/// eight spokes, their lists merged with 2, 3 and 5.
pub fn sieve(max: usize) -> (r: Vec<usize>)
    ensures
        max < 2 ==> r@.len() == 0,
        strictly_ascending(r@),
        forall|i: int| 0 <= i < r@.len() ==> 2 <= #[trigger] r@[i] <= max,
        forall|x: usize| (x == 2 || x == 3 || x == 5) && x <= max ==> r@.contains(x),
        forall|x: usize| is_prime(x as int) && x <= max ==> r@.contains(x),
        forall|i: int| 0 <= i < r@.len() ==> is_prime(#[trigger] r@[i] as int),
        forall|i: int|
            0 <= i < r@.len() && #[trigger] r@[i] > 5 ==> r@[i] % 2 != 0 && r@[i] % 3 != 0 && r@[i]
                % 5 != 0,
{
    if max < 2 {
        return Vec::new();
    }
    let mut spokes = new_spokes(max);
    let mut min_queue = seed_queue(&spokes, max);
    proof {
        lemma_weight_nonneg(spokes@, min_queue@);
    }
    while min_queue.len() > 0
        invariant
            spokes_wf(spokes@, max as int),
            all_marks_sound(spokes@),
            queue_ok(spokes@, min_queue@),
            frontier_ok(spokes@, min_queue@, max as int),
            one_per_spoke(min_queue@),
            weight(spokes@, min_queue@) >= 0,
        decreases weight(spokes@, min_queue@),
    {
        let popped = pop_next_prime(&spokes, &mut min_queue, max);
        if let Some((prime, _, spoke)) = popped {
            proof {
                crate::wheel::lemma_rp_range(spoke as int);
                assert(spoke_ok(spokes@[spoke as int], spoke as int, max as int));
                let c = popped.unwrap();
                let idx = c.1 as int;
                assert(entry_ok(spokes@, c));
                let w = spokes@[spoke as int].wheel();
                assert(prime == w.value(idx));
                assert(w.value(idx) == rp(spoke as int) + idx * 30);
                vstd::arithmetic::div_mod::lemma_mod_multiples_vanish(idx, rp(spoke as int), 30);
                assert(prime == 30 * idx + rp(spoke as int)) by (nonlinear_arith)
                    requires
                        prime == rp(spoke as int) + idx * 30,
                ;
            }
            let ghost s0 = spokes@;
            fan_out(&mut spokes, prime, spoke, max);
            proof {
                lemma_queue_transfer(s0, spokes@, min_queue@, max as int);
                lemma_frontier_after_fan_out(s0, spokes@, min_queue@, popped.unwrap(), max as int);
            }
        }
        proof {
            lemma_weight_nonneg(spokes@, min_queue@);
        }
    }
    proof {
        assert(min_queue@ =~= Seq::<PrimeInfo>::empty());
    }
    let mut lists: Vec<Vec<usize>> = Vec::new();
    lists.push(small_primes_upto(max));
    let mut k: usize = 0;
    while k < 8
        invariant
            k <= 8,
            spokes_wf(spokes@, max as int),
            lists.len() == k + 1,
            strictly_ascending(lists@[0]@),
            forall|x: usize| lists@[0]@.contains(x) <==> (x == 2 || x == 3 || x == 5) && x <= max,
            forall|t: int| 1 <= t <= k ==> spoke_list_ok(#[trigger] lists@[t]@, t - 1, max as int),
            all_marks_sound(spokes@),
            frontier_ok(spokes@, Seq::empty(), max as int),
            forall|t: int, u: int|
                1 <= t <= k && 0 <= u < lists@[t]@.len() ==> is_prime(#[trigger] lists@[t]@[u] as int),
            forall|t: int, x: int|
                1 <= t <= k && is_prime(x) && 7 <= x <= max && x % 30 == rp(t - 1) % 30 ==> #[trigger] listed(
                    lists@[t]@,
                    x,
                ),
        decreases 8 - k,
    {
        proof {
            assert(spoke_ok(spokes@[k as int], k as int, max as int));
        }
        let l = spokes[k].to_vec();
        proof {
            lemma_spoke_list(spokes@[k as int], k as int, max as int, l@);
        }
        let ghost before = lists@;
        lists.push(l);
        proof {
            assert(marks_sound(spokes@[k as int]));
            assert forall|t: int, x: int|
                1 <= t <= k + 1 && is_prime(x) && 7 <= x <= max && x % 30 == rp(t - 1) % 30 implies #[trigger] listed(
                lists@[t]@,
                x,
            ) by {
                if t == k + 1 {
                    lemma_prime_in_spoke(spokes@[k as int], k as int, max as int, l@, x);
                } else {
                    assert(lists@[t] == before[t]);
                }
            }
            assert forall|t: int, u: int|
                1 <= t <= k + 1 && 0 <= u < lists@[t]@.len() implies is_prime(
                #[trigger] lists@[t]@[u] as int,
            ) by {
                if t == k + 1 {
                    lemma_list_prime(spokes@, k as int, max as int, l@, u);
                } else {
                    assert(lists@[t] == before[t]);
                }
            }
        }
        k = k + 1;
    }
    proof {
        assert forall|a: int| 0 <= a < lists@.len() implies strictly_ascending(#[trigger] lists@[a]@) by {
            if a > 0 {
                assert(spoke_list_ok(lists@[a]@, a - 1, max as int));
            }
        }
        assert forall|a: int, b: int, i: int, j: int|
            0 <= a < lists@.len() && 0 <= b < lists@.len() && a != b && 0 <= i < lists@[a]@.len() && 0
                <= j < lists@[b]@.len() implies #[trigger] lists@[a]@[i] != #[trigger] lists@[b]@[j] by {
            if a == 0 {
                assert(lists@[0]@.contains(lists@[0]@[i]));
                assert(spoke_list_ok(lists@[b]@, b - 1, max as int));
                assert(7 <= lists@[b]@[j]);
            } else if b == 0 {
                assert(lists@[0]@.contains(lists@[0]@[j]));
                assert(spoke_list_ok(lists@[a]@, a - 1, max as int));
                assert(7 <= lists@[a]@[i]);
            } else {
                assert(spoke_list_ok(lists@[a]@, a - 1, max as int));
                assert(spoke_list_ok(lists@[b]@, b - 1, max as int));
                assert(lists@[a]@[i] % 30 == rp(a - 1) % 30);
                assert(lists@[b]@[j] % 30 == rp(b - 1) % 30);
                crate::wheel::lemma_residues_distinct(a - 1, b - 1);
            }
        }
    }
    let r = merge(&lists);
    proof {
        assert forall|i: int| 0 <= i < r@.len() implies 2 <= #[trigger] r@[i] <= max && (r@[i] > 5
            ==> r@[i] % 2 != 0 && r@[i] % 3 != 0 && r@[i] % 5 != 0) by {
            assert(r@.contains(r@[i]));
            let x = r@[i];
            let (a, t) = choose|a: int, t: int|
                0 <= a < lists@.len() && 0 <= t < lists@[a]@.len() && #[trigger] lists@[a]@[t] == x;
            if a == 0 {
                assert(lists@[0]@.contains(x));
            } else {
                assert(spoke_list_ok(lists@[a]@, a - 1, max as int));
                assert(x % 30 == rp(a - 1) % 30);
                lemma_residue_coprime(x as int, a - 1);
            }
        }
        assert forall|x: usize| (x == 2 || x == 3 || x == 5) && x <= max implies r@.contains(x) by {
            assert(lists@[0]@.contains(x));
            let t = choose|t: int| 0 <= t < lists@[0]@.len() && lists@[0]@[t] == x;
            assert(in_some(lists@, x));
        }
        assert forall|i: int| 0 <= i < r@.len() implies is_prime(#[trigger] r@[i] as int) by {
            assert(r@.contains(r@[i]));
            let x = r@[i];
            let (a, t) = choose|a: int, t: int|
                0 <= a < lists@.len() && 0 <= t < lists@[a]@.len() && #[trigger] lists@[a]@[t] == x;
            if a == 0 {
                assert(lists@[0]@.contains(x));
                lemma_small_primes(x as int);
            }
        }
        assert forall|x: usize| is_prime(x as int) && x <= max implies r@.contains(x) by {
            if x <= 6 {
                assert(x != 4 && x != 6) by {
                    if x == 4 || x == 6 {
                        assert((x as int) % 2 != 0);
                    }
                }
                assert(lists@[0]@.contains(x));
                let t = choose|t: int| 0 <= t < lists@[0]@.len() && lists@[0]@[t] == x;
                assert(in_some(lists@, x));
            } else {
                let k = lemma_prime_residue(x as int);
                assert(1 <= k + 1 <= 8);
                assert(listed(lists@[k + 1]@, x as int));
                let u = choose|u: int|
                    0 <= u < lists@[k + 1]@.len() && #[trigger] lists@[k + 1]@[u] as int == x;
                assert(lists@[k + 1]@[u] == x);
                assert(in_some(lists@, x));
            }
        }
    }
    r
}

proof fn lemma_residue_coprime(x: int, k: int)
    requires
        0 <= k < 8,
        x >= 0,
        x % 30 == rp(k) % 30,
    ensures
        x % 2 != 0 && x % 3 != 0 && x % 5 != 0,
{
    assert(k == 0 || k == 1 || k == 2 || k == 3 || k == 4 || k == 5 || k == 6 || k == 7);
}

} // verus!
