//! Priority order: the countries that the corpus mentions most come first.

use vstd::prelude::*;
use crate::text::occurrences;

verus! {

/// How often `tag` occurs in all the texts of `corpus` together.
pub open spec fn total_occurrences(tag: Seq<char>, corpus: Seq<Seq<char>>) -> nat
    decreases corpus.len(),
{
    if corpus.len() == 0 {
        0
    } else {
        total_occurrences(tag, corpus.drop_last()) + occurrences(corpus.last(), tag)
    }
}

/// Whether entry `i` comes before entry `j`: it has the higher count, or the
/// same count and the earlier place.
pub open spec fn ranks_before(counts: Seq<nat>, i: int, j: int) -> bool {
    counts[i] > counts[j] || (counts[i] == counts[j] && i < j)
}

/// Whether `order` lists the entries of `counts` by priority: each entry
/// once, every entry before all those that it ranks before.
pub open spec fn is_ranking(order: Seq<int>, counts: Seq<nat>) -> bool {
    &&& order.len() == counts.len()
    &&& forall|p: int| 0 <= p < order.len() ==> 0 <= #[trigger] order[p] < counts.len()
    &&& forall|i: int| 0 <= i < counts.len() ==> order.contains(i)
    &&& forall|p: int, q: int|
        0 <= p < q < order.len() ==> ranks_before(counts, #[trigger] order[p], #[trigger] order[q])
}

/// The counts as natural numbers.
pub open spec fn as_nats(counts: Seq<u128>) -> Seq<nat> {
    Seq::new(counts.len(), |i: int| counts[i] as nat)
}

/// The places as integers.
pub open spec fn as_ints(order: Seq<usize>) -> Seq<int> {
    Seq::new(order.len(), |p: int| order[p] as int)
}

/// There is one priority order only.
pub proof fn lemma_ranking_unique(a: Seq<int>, b: Seq<int>, counts: Seq<nat>)
    requires
        is_ranking(a, counts),
        is_ranking(b, counts),
    ensures
        a == b,
{
    lemma_rankings_agree(a, b, counts, a.len() as int);
    assert(a =~= b);
}

/// Two priority orders agree on their first `upto` places.
proof fn lemma_rankings_agree(a: Seq<int>, b: Seq<int>, counts: Seq<nat>, upto: int)
    requires
        is_ranking(a, counts),
        is_ranking(b, counts),
        0 <= upto <= a.len(),
    ensures
        forall|p: int| 0 <= p < upto ==> a[p] == b[p],
    decreases upto,
{
    if upto > 0 {
        lemma_rankings_agree(a, b, counts, upto - 1);
        let p = upto - 1;
        let x = a[p];
        let y = b[p];
        assert(b.contains(x));
        let q = choose|q: int| 0 <= q < b.len() && b[q] == x;
        assert(a.contains(y));
        let r = choose|r: int| 0 <= r < a.len() && a[r] == y;
        if q < p {
            assert(ranks_before(counts, a[q], a[p]));
        } else if q > p {
            assert(ranks_before(counts, b[p], b[q]));
            if r < p {
                assert(ranks_before(counts, b[r], b[p]));
            } else if r > p {
                assert(ranks_before(counts, a[p], a[r]));
            }
        }
    }
}

/// Puts the entries of `counts` in priority order: the higher count first,
/// and among equal counts the earlier entry first.
pub fn rank(counts: &Vec<u128>) -> (order: Vec<usize>)
    ensures
        is_ranking(as_ints(order@), as_nats(counts@)),
{
    let n = counts.len();
    let ghost nats = as_nats(counts@);
    let mut order: Vec<usize> = Vec::new();
    let mut i: usize = 0;
    while i < n
        invariant
            i <= n,
            n == counts@.len(),
            nats == as_nats(counts@),
            order@.len() == i,
            forall|p: int| 0 <= p < i ==> (#[trigger] order@[p]) < i,
            forall|j: usize| j < i ==> order@.contains(j),
            forall|p: int, q: int|
                0 <= p < q < i ==> ranks_before(
                    nats,
                    (#[trigger] order@[p]) as int,
                    (#[trigger] order@[q]) as int,
                ),
        decreases n - i,
    {
        let mut pos: usize = 0;
        while pos < order.len() && counts[order[pos]] >= counts[i]
            invariant
                pos <= order@.len(),
                order@.len() == i,
                i < n,
                n == counts@.len(),
                forall|p: int| 0 <= p < i ==> (#[trigger] order@[p]) < i,
                forall|p: int| 0 <= p < pos ==> counts@[(#[trigger] order@[p]) as int] >= counts@[i as int],
            decreases order.len() - pos,
        {
            pos += 1;
        }
        let ghost before = order@;
        order.insert(pos, i);
        proof {
            let after = order@;
            assert forall|p: int| 0 <= p < i + 1 implies (#[trigger] after[p]) < i + 1 by {
                if p < pos {
                    assert(after[p] == before[p]);
                } else if p > pos {
                    assert(after[p] == before[p - 1]);
                }
            }
            assert forall|j: usize| j < i + 1 implies after.contains(j) by {
                if j < i {
                    assert(before.contains(j));
                    let p = choose|p: int| 0 <= p < before.len() && before[p] == j;
                    if p < pos {
                        assert(after[p] == j);
                    } else {
                        assert(after[p + 1] == j);
                    }
                } else {
                    assert(after[pos as int] == j);
                }
            }
            assert forall|p: int, q: int| 0 <= p < q < i + 1 implies ranks_before(
                nats,
                (#[trigger] after[p]) as int,
                (#[trigger] after[q]) as int,
            ) by {
                let bp = if p < pos { p } else { p - 1 };
                let bq = if q < pos { q } else { q - 1 };
                if p != pos {
                    assert(after[p] == before[bp]);
                }
                if q != pos {
                    assert(after[q] == before[bq]);
                }
                if p == pos {
                    if pos < bq {
                        assert(ranks_before(nats, before[pos as int] as int, before[bq] as int));
                    }
                }
            }
        }
        i += 1;
    }
    proof {
        let ints = as_ints(order@);
        assert forall|j: int| 0 <= j < nats.len() implies ints.contains(j) by {
            assert(order@.contains(j as usize));
            let p = choose|p: int| 0 <= p < order@.len() && order@[p] == j as usize;
            assert(ints[p] == j);
        }
    }
    order
}

} // verus!
