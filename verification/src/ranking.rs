//! Putting numbered things in order.

use vstd::prelude::*;

verus! {

/// A strict order on the things numbered below `size`, in which every two differ.
pub trait Ranking {
    /// How many things are ranked.
    spec fn size(&self) -> nat;

    /// Whether the `i`th thing comes before the `j`th.
    spec fn before(&self, i: int, j: int) -> bool;

    proof fn before_is_transitive(&self, i: int, j: int, k: int)
        requires
            self.before(i, j),
            self.before(j, k),
        ensures
            self.before(i, k),
    ;

    proof fn before_is_total(&self, i: int, j: int)
        requires
            i != j,
        ensures
            self.before(i, j) || self.before(j, i),
    ;

    /// Whether the `i`th thing comes before the `j`th.
    fn comes_before(&self, i: usize, j: usize) -> (r: bool)
        requires
            i < self.size(),
            j < self.size(),
        ensures
            r == self.before(i as int, j as int),
    ;
}

/// Whether each of `order` comes before all that follow it.
pub open spec fn ranked<R: Ranking>(ranking: &R, order: Seq<usize>) -> bool {
    forall|i: int, j: int|
        0 <= i < j < order.len() ==> ranking.before(
            #[trigger] order[i] as int,
            #[trigger] order[j] as int,
        )
}

/// Whether `chosen` are numbers of ranked things.
pub open spec fn in_range<R: Ranking>(ranking: &R, chosen: Seq<usize>) -> bool {
    forall|i: int| 0 <= i < chosen.len() ==> (#[trigger] chosen[i]) < ranking.size()
}

/// Puts `item` among `order` where the ranking wants it.
fn place<R: Ranking>(ranking: &R, order: &mut Vec<usize>, item: usize)
    requires
        item < ranking.size(),
        in_range(ranking, old(order)@),
        ranked(ranking, old(order)@),
        !old(order)@.contains(item),
    ensures
        in_range(ranking, final(order)@),
        ranked(ranking, final(order)@),
        final(order)@.len() == old(order)@.len() + 1,
        forall|x: usize| #[trigger]
            final(order)@.contains(x) <==> old(order)@.contains(x) || x == item,
{
    let ghost start = order@;
    let mut at: usize = 0;
    while at < order.len() && ranking.comes_before(order[at], item)
        invariant
            at <= order.len(),
            order@ == start,
            item < ranking.size(),
            in_range(ranking, start),
            forall|i: int| 0 <= i < at ==> ranking.before(#[trigger] start[i] as int, item as int),
        decreases order.len() - at,
    {
        at += 1;
    }
    assert forall|j: int| at <= j < start.len() implies ranking.before(
        item as int,
        #[trigger] start[j] as int,
    ) by {
        assert(start.contains(start[at as int]));
        ranking.before_is_total(item as int, start[at as int] as int);
        if j > at {
            ranking.before_is_transitive(item as int, start[at as int] as int, start[j] as int);
        }
    }
    order.insert(at, item);
    let ghost end = order@;
    assert(end == start.insert(at as int, item));
    assert forall|x: usize| #[trigger] end.contains(x) <==> start.contains(x) || x == item by {
        if end.contains(x) {
            let i = choose|i: int| 0 <= i < end.len() && end[i] == x;
            if i < at {
                assert(start[i] == x);
            } else if i > at {
                assert(start[i - 1] == x);
            }
        }
        if start.contains(x) {
            let i = choose|i: int| 0 <= i < start.len() && start[i] == x;
            if i < at {
                assert(end[i] == x);
            } else {
                assert(end[i + 1] == x);
            }
        }
        assert(end[at as int] == item);
    }
    assert forall|i: int, j: int| 0 <= i < j < end.len() implies ranking.before(
        #[trigger] end[i] as int,
        #[trigger] end[j] as int,
    ) by {
        if i < at && j > at {
            assert(end[i] == start[i] && end[j] == start[j - 1]);
        } else if j < at {
            assert(end[i] == start[i] && end[j] == start[j]);
        } else if i > at {
            assert(end[i] == start[i - 1] && end[j] == start[j - 1]);
        } else if i == at {
            assert(end[j] == start[j - 1]);
        } else {
            assert(end[i] == start[i]);
        }
    }
}

/// `chosen`, in the order of the ranking.
pub fn in_order<R: Ranking>(ranking: &R, chosen: &Vec<usize>) -> (order: Vec<usize>)
    requires
        in_range(ranking, chosen@),
        chosen@.no_duplicates(),
    ensures
        in_range(ranking, order@),
        ranked(ranking, order@),
        order@.len() == chosen@.len(),
        forall|x: usize| #[trigger] order@.contains(x) <==> chosen@.contains(x),
{
    let mut order: Vec<usize> = Vec::new();
    let mut i: usize = 0;
    while i < chosen.len()
        invariant
            i <= chosen.len(),
            in_range(ranking, chosen@),
            chosen@.no_duplicates(),
            in_range(ranking, order@),
            ranked(ranking, order@),
            order@.len() == i,
            forall|x: usize| #[trigger] order@.contains(x) <==> chosen@.take(i as int).contains(x),
        decreases chosen.len() - i,
    {
        let ghost seen = chosen@.take(i as int);
        let ghost next = chosen@.take(i + 1);
        let item = chosen[i];
        assert(!seen.contains(item));
        place(ranking, &mut order, item);
        assert(next == seen.push(item));
        assert forall|x: usize| #[trigger] order@.contains(x) <==> next.contains(x) by {
            if next.contains(x) {
                let k = choose|k: int| 0 <= k < next.len() && next[k] == x;
                if k < i {
                    assert(seen[k] == x);
                }
            }
            if seen.contains(x) {
                let k = choose|k: int| 0 <= k < seen.len() && seen[k] == x;
                assert(next[k] == x);
            }
            assert(next[i as int] == item);
        }
        i += 1;
    }
    assert(chosen@.take(i as int) == chosen@);
    order
}

} // verus!
