use vstd::multiset::Multiset;
use vstd::prelude::*;

verus! {

broadcast use vstd::multiset::group_multiset_axioms, vstd::multiset::group_multiset_properties,
    vstd::seq_lib::group_to_multiset_ensures;

/// Each entry is smaller than the next.
pub open spec fn strictly_ascending(s: Seq<usize>) -> bool {
    forall|i: int, j: int| 0 <= i < j < s.len() ==> s[i] < s[j]
}

/// Every list ascends strictly.
pub open spec fn all_ascending(lists: Seq<Vec<usize>>) -> bool {
    forall|a: int| 0 <= a < lists.len() ==> strictly_ascending(#[trigger] lists[a]@)
}

/// No value stands in two different lists.
pub open spec fn pairwise_disjoint(lists: Seq<Vec<usize>>) -> bool {
    forall|a: int, b: int, i: int, j: int|
        0 <= a < lists.len() && 0 <= b < lists.len() && a != b && 0 <= i < lists[a]@.len() && 0
            <= j < lists[b]@.len() ==> #[trigger] lists[a]@[i] != #[trigger] lists[b]@[j]
}

/// `x` stands in one of the lists.
pub open spec fn in_some(lists: Seq<Vec<usize>>, x: usize) -> bool {
    exists|a: int, i: int| 0 <= a < lists.len() && 0 <= i < lists[a]@.len() && #[trigger] lists[a]@[i] == x
}

/// Entries of the lists not read yet, the list `a` read up to `cur[a]`.
pub open spec fn remaining(lists: Seq<Vec<usize>>, cur: Seq<usize>, n: int) -> int
    decreases n,
{
    if n <= 0 {
        0
    } else {
        remaining(lists, cur, n - 1) + (lists[n - 1]@.len() - cur[n - 1])
    }
}

proof fn lemma_remaining_step(lists: Seq<Vec<usize>>, cur: Seq<usize>, b: int, n: int)
    requires
        0 <= b < n <= cur.len(),
        cur[b] < usize::MAX,
    ensures
        remaining(lists, cur.update(b, (cur[b] + 1) as usize), n) == remaining(lists, cur, n) - 1,
    decreases n,
{
    if n - 1 > b {
        lemma_remaining_step(lists, cur, b, n - 1);
    } else {
        lemma_remaining_same(lists, cur, cur.update(b, (cur[b] + 1) as usize), b);
    }
}

proof fn lemma_remaining_same(lists: Seq<Vec<usize>>, c1: Seq<usize>, c2: Seq<usize>, n: int)
    requires
        0 <= n <= c1.len(),
        n <= c2.len(),
        forall|a: int| 0 <= a < n ==> c1[a] == c2[a],
    ensures
        remaining(lists, c1, n) == remaining(lists, c2, n),
    decreases n,
{
    if n > 0 {
        lemma_remaining_same(lists, c1, c2, n - 1);
    }
}

proof fn lemma_remaining_nonneg(lists: Seq<Vec<usize>>, cur: Seq<usize>, n: int)
    requires
        0 <= n <= cur.len(),
        n <= lists.len(),
        forall|a: int| 0 <= a < n ==> cur[a] <= #[trigger] lists[a]@.len(),
    ensures
        remaining(lists, cur, n) >= 0,
    decreases n,
{
    if n > 0 {
        lemma_remaining_nonneg(lists, cur, n - 1);
    }
}

/// Each entry is at most the next.
pub open spec fn sorted(s: Seq<usize>) -> bool {
    forall|i: int, j: int| 0 <= i < j < s.len() ==> s[i] <= s[j]
}

/// Every list is sorted.
pub open spec fn all_sorted(lists: Seq<Vec<usize>>) -> bool {
    forall|a: int| 0 <= a < lists.len() ==> sorted(#[trigger] lists[a]@)
}

/// Total number of entries of the lists.
pub open spec fn total_len(lists: Seq<Vec<usize>>) -> int {
    remaining(lists, Seq::new(lists.len(), |_i: int| 0usize), lists.len() as int)
}

/// All entries of the first `n` lists, as a multiset.
pub open spec fn items(lists: Seq<Vec<usize>>, n: int) -> Multiset<usize>
    decreases n,
{
    if n <= 0 {
        Multiset::empty()
    } else {
        items(lists, n - 1).add(lists[n - 1]@.to_multiset())
    }
}

/// Entries of the first `n` lists not read yet, list `a` read up to `cur[a]`.
pub open spec fn rest(lists: Seq<Vec<usize>>, cur: Seq<usize>, n: int) -> Multiset<usize>
    decreases n,
{
    if n <= 0 {
        Multiset::empty()
    } else {
        rest(lists, cur, n - 1).add(
            lists[n - 1]@.subrange(cur[n - 1] as int, lists[n - 1]@.len() as int).to_multiset(),
        )
    }
}

proof fn lemma_rest_start(lists: Seq<Vec<usize>>, cur: Seq<usize>, n: int)
    requires
        0 <= n <= cur.len(),
        n <= lists.len(),
        forall|a: int| 0 <= a < n ==> cur[a] == 0,
    ensures
        rest(lists, cur, n) == items(lists, n),
    decreases n,
{
    if n > 0 {
        lemma_rest_start(lists, cur, n - 1);
        assert(lists[n - 1]@.subrange(0, lists[n - 1]@.len() as int) =~= lists[n - 1]@);
    }
}

proof fn lemma_rest_same(lists: Seq<Vec<usize>>, c1: Seq<usize>, c2: Seq<usize>, n: int)
    requires
        0 <= n <= c1.len(),
        n <= c2.len(),
        forall|a: int| 0 <= a < n ==> c1[a] == c2[a],
    ensures
        rest(lists, c1, n) == rest(lists, c2, n),
    decreases n,
{
    if n > 0 {
        lemma_rest_same(lists, c1, c2, n - 1);
    }
}

proof fn lemma_rest_step(lists: Seq<Vec<usize>>, cur: Seq<usize>, b: int, n: int)
    requires
        0 <= b < n <= cur.len(),
        n <= lists.len(),
        cur[b] < lists[b]@.len(),
        cur[b] < usize::MAX,
    ensures
        rest(lists, cur.update(b, (cur[b] + 1) as usize), n).insert(lists[b]@[cur[b] as int])
            == rest(lists, cur, n),
    decreases n,
{
    let c2 = cur.update(b, (cur[b] + 1) as usize);
    if n - 1 > b {
        lemma_rest_step(lists, cur, b, n - 1);
        assert(rest(lists, c2, n).insert(lists[b]@[cur[b] as int]) =~= rest(lists, cur, n));
    } else {
        lemma_rest_same(lists, cur, c2, b);
        let s = lists[b]@;
        let sub = s.subrange(cur[b] as int, s.len() as int);
        assert(sub.remove(0) =~= s.subrange(cur[b] + 1, s.len() as int));
        vstd::seq_lib::to_multiset_remove(sub, 0);
        assert(sub.to_multiset().count(sub[0]) > 0) by {
            vstd::seq_lib::to_multiset_contains(sub, sub[0]);
            assert(sub.contains(sub[0]));
        }
        let t = s.subrange(cur[b] + 1, s.len() as int);
        assert(t.to_multiset() == sub.to_multiset().remove(sub[0]));
        assert(sub[0] == lists[b]@[cur[b] as int]);
        assert(sub.to_multiset() =~= t.to_multiset().insert(sub[0]));
        assert(c2[b] as int == cur[b] + 1);
        assert(rest(lists, c2, n) == rest(lists, c2, b).add(t.to_multiset()));
        assert(rest(lists, cur, n) == rest(lists, cur, b).add(sub.to_multiset()));
        assert(rest(lists, c2, n).insert(lists[b]@[cur[b] as int]) =~= rest(lists, cur, n));
    }
}

proof fn lemma_rest_done(lists: Seq<Vec<usize>>, cur: Seq<usize>, n: int)
    requires
        0 <= n <= cur.len(),
        n <= lists.len(),
        forall|a: int| 0 <= a < n ==> cur[a] == #[trigger] lists[a]@.len(),
    ensures
        rest(lists, cur, n) == Multiset::<usize>::empty(),
    decreases n,
{
    if n > 0 {
        lemma_rest_done(lists, cur, n - 1);
        assert(lists[n - 1]@.subrange(cur[n - 1] as int, lists[n - 1]@.len() as int) =~= Seq::<
            usize,
        >::empty());
        assert(rest(lists, cur, n) =~= Multiset::<usize>::empty());
    }
}

/// Merges sorted lists into one sorted list of the same entries: it has their
/// total length and holds exactly their values. When the lists ascend strictly
/// and share no value, the result ascends strictly.
pub fn merge(lists: &Vec<Vec<usize>>) -> (r: Vec<usize>)
    requires
        all_sorted(lists@),
    ensures
        sorted(r@),
        r@.len() == total_len(lists@),
        r@.to_multiset() == items(lists@, lists@.len() as int),
        forall|x: usize| r@.contains(x) <==> in_some(lists@, x),
        all_ascending(lists@) && pairwise_disjoint(lists@) ==> strictly_ascending(r@),
{
    let ghost strict = all_ascending(lists@) && pairwise_disjoint(lists@);
    let n = lists.len();
    let mut cursors: Vec<usize> = Vec::new();
    let mut a: usize = 0;
    while a < n
        invariant
            a <= n,
            n == lists.len(),
            cursors.len() == a,
            forall|t: int| 0 <= t < a ==> cursors@[t] == 0,
        decreases n - a,
    {
        cursors.push(0);
        a = a + 1;
    }
    let mut out: Vec<usize> = Vec::new();
    proof {
        lemma_remaining_nonneg(lists@, cursors@, n as int);
        assert(cursors@ =~= Seq::new(lists@.len(), |_i: int| 0usize));
        lemma_rest_start(lists@, cursors@, n as int);
        assert(out@.to_multiset() =~= Multiset::<usize>::empty());
        assert(out@.to_multiset().add(rest(lists@, cursors@, n as int)) =~= items(lists@, n as int));
    }
    loop
        invariant
            n == lists.len(),
            cursors.len() == n,
            all_sorted(lists@),
            strict == (all_ascending(lists@) && pairwise_disjoint(lists@)),
            forall|t: int| 0 <= t < n ==> cursors@[t] <= #[trigger] lists@[t]@.len(),
            sorted(out@),
            strict ==> strictly_ascending(out@),
            forall|t: int, k: int|
                0 <= t < n && 0 <= k < cursors@[t] ==> out@.contains(#[trigger] lists@[t]@[k]),
            forall|x: usize| out@.contains(x) ==> in_some(lists@, x),
            out.len() > 0 ==> forall|t: int, k: int|
                0 <= t < n && cursors@[t] <= k < lists@[t]@.len() ==> out@.last()
                    <= #[trigger] lists@[t]@[k],
            strict && out.len() > 0 ==> forall|t: int, k: int|
                0 <= t < n && cursors@[t] <= k < lists@[t]@.len() ==> out@.last()
                    < #[trigger] lists@[t]@[k],
            remaining(lists@, cursors@, n as int) >= 0,
            out.len() + remaining(lists@, cursors@, n as int) == total_len(lists@),
            out@.to_multiset().add(rest(lists@, cursors@, n as int)) == items(lists@, n as int),
        decreases remaining(lists@, cursors@, n as int),
    {
        let mut best: Option<usize> = None;
        let mut b: usize = 0;
        while b < n
            invariant
                b <= n,
                n == lists.len(),
                cursors.len() == n,
                forall|t: int| 0 <= t < n ==> cursors@[t] <= #[trigger] lists@[t]@.len(),
                match best {
                    Some(m) => {
                        &&& m < b
                        &&& cursors@[m as int] < lists@[m as int]@.len()
                        &&& forall|t: int|
                            0 <= t < b && cursors@[t] < lists@[t]@.len() ==> lists@[m as int]@[cursors@[m as int] as int]
                                <= #[trigger] lists@[t]@[cursors@[t] as int]
                    },
                    None => forall|t: int| 0 <= t < b ==> cursors@[t] == #[trigger] lists@[t]@.len(),
                },
            decreases n - b,
        {
            if cursors[b] < lists[b].len() {
                match best {
                    Some(m) => {
                        if lists[b][cursors[b]] < lists[m][cursors[m]] {
                            best = Some(b);
                        }
                    },
                    None => {
                        best = Some(b);
                    },
                }
            }
            b = b + 1;
        }
        match best {
            None => {
                proof {
                    assert forall|x: usize| in_some(lists@, x) implies out@.contains(x) by {
                        let (t, k) = choose|t: int, k: int|
                            0 <= t < lists@.len() && 0 <= k < lists@[t]@.len() && #[trigger] lists@[t]@[k]
                                == x;
                        assert(cursors@[t] == lists@[t]@.len());
                    }
                    lemma_remaining_zero(lists@, cursors@, n as int);
                    lemma_rest_done(lists@, cursors@, n as int);
                    assert(out@.to_multiset() =~= out@.to_multiset().add(rest(lists@, cursors@, n as int)));
                }
                return out;
            },
            Some(m) => {
                let c = cursors[m];
                let lm = lists[m].len();
                assert(c < lm);
                let h = lists[m][c];
                let ghost old_out = out@;
                let ghost old_cur = cursors@;
                proof {
                    assert forall|t: int, k: int|
                        0 <= t < n && cursors@[t] <= k < lists@[t]@.len() implies h
                        <= #[trigger] lists@[t]@[k] by {
                        assert(sorted(lists@[t]@));
                        if t != m {
                            assert(lists@[t]@[cursors@[t] as int] <= lists@[t]@[k]);
                        }
                    }
                    if strict {
                        assert forall|t: int, k: int|
                            0 <= t < n && cursors@[t] <= k < lists@[t]@.len() && !(t == m && k == c) implies h
                            < #[trigger] lists@[t]@[k] by {
                            assert(strictly_ascending(lists@[t]@));
                            if t == m {
                            } else {
                                assert(lists@[t]@[cursors@[t] as int] <= lists@[t]@[k]);
                                assert(lists@[m as int]@[c as int] != lists@[t]@[k]);
                            }
                        }
                    }
                }
                out.push(h);
                cursors.set(m, c + 1);
                proof {
                    lemma_remaining_step(lists@, old_cur, m as int, n as int);
                    lemma_rest_step(lists@, old_cur, m as int, n as int);
                    vstd::seq_lib::to_multiset_build(old_out, h);
                    assert(out@ =~= old_out.push(h));
                    assert(out@.to_multiset().add(rest(lists@, cursors@, n as int)) =~= old_out.to_multiset().add(
                        rest(lists@, old_cur, n as int),
                    ));
                    lemma_remaining_nonneg(lists@, cursors@, n as int);
                    assert(cursors@ == old_cur.update(m as int, (c + 1) as usize));
                    assert forall|i: int, j: int| 0 <= i < j < out@.len() implies out@[i] <= out@[j] by {
                        if j == out@.len() - 1 && i < j {
                            assert(old_out[i] <= old_out.last());
                        }
                    }
                    if strict {
                        assert forall|i: int, j: int| 0 <= i < j < out@.len() implies out@[i] < out@[j] by {
                            if j == out@.len() - 1 && i < j {
                                if old_out.len() > 0 {
                                    assert(old_out[i] <= old_out.last());
                                }
                            }
                        }
                    }
                    assert forall|x: usize| out@.contains(x) implies in_some(lists@, x) by {
                        if x == h {
                            assert(lists@[m as int]@[c as int] == h);
                        } else {
                            let i = choose|i: int| 0 <= i < out@.len() && out@[i] == x;
                            assert(old_out[i] == x);
                        }
                    }
                    assert forall|t: int, k: int|
                        0 <= t < n && 0 <= k < cursors@[t] implies out@.contains(
                        #[trigger] lists@[t]@[k],
                    ) by {
                        if t == m && k == c {
                            assert(out@[out@.len() - 1] == h);
                        } else {
                            assert(k < old_cur[t]);
                            assert(old_out.contains(lists@[t]@[k]));
                            let i = choose|i: int| 0 <= i < old_out.len() && old_out[i] == lists@[t]@[k];
                            assert(out@[i] == lists@[t]@[k]);
                        }
                    }
                }
            },
        }
    }
}

proof fn lemma_remaining_zero(lists: Seq<Vec<usize>>, cur: Seq<usize>, n: int)
    requires
        0 <= n <= cur.len(),
        n <= lists.len(),
        forall|a: int| 0 <= a < n ==> cur[a] == #[trigger] lists[a]@.len(),
    ensures
        remaining(lists, cur, n) == 0,
    decreases n,
{
    if n > 0 {
        lemma_remaining_zero(lists, cur, n - 1);
    }
}

} // verus!
