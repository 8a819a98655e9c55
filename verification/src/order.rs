//! Putting matches in the order of their addresses.

use vstd::prelude::*;

use crate::matched::{views, MatchView, MatchedAddress};

verus! {

/// Whether addresses never fall.
pub open spec fn is_ordered(list: Seq<MatchView>) -> bool {
    forall|i: int, j: int| 0 <= i <= j < list.len() ==> list[i].address <= list[j].address
}

/// The matches at one address, in their order in the list.
pub open spec fn at_address(list: Seq<MatchView>, address: usize) -> Seq<MatchView> {
    list.filter(|m: MatchView| m.address == address)
}

/// Puts a match into an ordered list, behind everything that is not above it.
pub open spec fn inserted(list: Seq<MatchView>, m: MatchView) -> Seq<MatchView>
    decreases list.len(),
{
    if list.len() == 0 || list.last().address <= m.address {
        list.push(m)
    } else {
        inserted(list.drop_last(), m).push(list.last())
    }
}

/// A list in the order of its addresses; matches at the same address keep their order.
pub open spec fn by_address(list: Seq<MatchView>) -> Seq<MatchView>
    decreases list.len(),
{
    if list.len() == 0 {
        list
    } else {
        inserted(by_address(list.drop_last()), list.last())
    }
}

proof fn lemma_at_push(list: Seq<MatchView>, m: MatchView, address: usize)
    ensures
        at_address(list.push(m), address) == if m.address == address {
            at_address(list, address).push(m)
        } else {
            at_address(list, address)
        },
{
    reveal(Seq::filter);
    assert(list.push(m).drop_last() =~= list);
}

proof fn lemma_at_add(a: Seq<MatchView>, b: Seq<MatchView>, address: usize)
    ensures
        at_address(a + b, address) == at_address(a, address) + at_address(b, address),
{
    Seq::filter_distributes_over_add(a, b, |m: MatchView| m.address == address);
}

/// An address that no match has selects nothing.
proof fn lemma_at_absent(list: Seq<MatchView>, address: usize)
    requires
        forall|i: int| 0 <= i < list.len() ==> (#[trigger] list[i]).address != address,
    ensures
        at_address(list, address) == Seq::<MatchView>::empty(),
    decreases list.len(),
{
    reveal(Seq::filter);
    if list.len() > 0 {
        lemma_at_absent(list.drop_last(), address);
    }
}

/// The match that stands last in a list stands last among those at its address.
proof fn lemma_at_last(list: Seq<MatchView>)
    requires
        list.len() > 0,
    ensures
        at_address(list, list.last().address).len() > 0,
        at_address(list, list.last().address).last() == list.last(),
{
    lemma_at_push(list.drop_last(), list.last(), list.last().address);
    assert(list.drop_last().push(list.last()) =~= list);
}

/// An ordered list is determined by what it holds at each address.
proof fn lemma_ordered_unique(a: Seq<MatchView>, b: Seq<MatchView>)
    requires
        is_ordered(a),
        is_ordered(b),
        forall|k: usize| #[trigger] at_address(a, k) == at_address(b, k),
    ensures
        a == b,
    decreases a.len(),
{
    if a.len() == 0 {
        if b.len() > 0 {
            lemma_at_last(b);
            lemma_at_absent(a, b.last().address);
            assert(at_address(a, b.last().address) == at_address(b, b.last().address));
        }
        assert(a =~= b);
    } else {
        let x = a.last();
        lemma_at_last(a);
        assert(at_address(a, x.address) == at_address(b, x.address));
        if b.len() == 0 {
            lemma_at_absent(b, x.address);
            assert(false);
        }
        let y = b.last();
        lemma_at_last(b);
        assert(at_address(a, y.address) == at_address(b, y.address));
        if x.address > y.address {
            lemma_at_absent(b, x.address);
        }
        if y.address > x.address {
            lemma_at_absent(a, y.address);
        }
        assert(x == y);
        let front_a = a.drop_last();
        let front_b = b.drop_last();
        assert(front_a.push(x) =~= a);
        assert(front_b.push(y) =~= b);
        assert forall|k: usize| #[trigger] at_address(front_a, k) == at_address(front_b, k) by {
            lemma_at_push(front_a, x, k);
            lemma_at_push(front_b, y, k);
            assert(at_address(a, k) == at_address(b, k));
            if x.address == k {
                assert(at_address(front_a, k) =~= at_address(a, k).drop_last());
                assert(at_address(front_b, k) =~= at_address(b, k).drop_last());
            }
        }
        lemma_ordered_unique(front_a, front_b);
    }
}

proof fn lemma_inserted(list: Seq<MatchView>, m: MatchView)
    requires
        is_ordered(list),
    ensures
        is_ordered(inserted(list, m)),
        inserted(list, m).len() == list.len() + 1,
        inserted(list, m).last().address <= m.address || (list.len() > 0 && inserted(
            list,
            m,
        ).last().address <= list.last().address),
        forall|k: usize| #[trigger]
            at_address(inserted(list, m), k) == at_address(list.push(m), k),
    decreases list.len(),
{
    if list.len() == 0 || list.last().address <= m.address {
    } else {
        let front = list.drop_last();
        let last = list.last();
        lemma_inserted(front, m);
        let shorter = inserted(front, m);
        let all = inserted(list, m);
        assert(shorter.last().address <= last.address) by {
            if front.len() > 0 {
                assert(front.last() == list[list.len() - 2]);
            }
        }
        assert forall|i: int, j: int| 0 <= i <= j < all.len() implies all[i].address
            <= all[j].address by {
            if j == shorter.len() && i < j {
                assert(all[i] == shorter[i]);
                assert(shorter[i].address <= shorter.last().address);
            }
        }
        assert forall|k: usize| #[trigger] at_address(all, k) == at_address(list.push(m), k) by {
            lemma_at_push(shorter, last, k);
            lemma_at_push(list, m, k);
            lemma_at_push(front, m, k);
            lemma_at_push(front, last, k);
            assert(front.push(last) =~= list);
            assert(at_address(shorter, k) == at_address(front.push(m), k));
        }
    }
}

/// Ordering a list leaves its addresses never falling, and keeps what it holds at each address
/// in the order it had.
pub proof fn law_by_address(list: Seq<MatchView>)
    ensures
        is_ordered(by_address(list)),
        by_address(list).len() == list.len(),
        forall|k: usize| #[trigger] at_address(by_address(list), k) == at_address(list, k),
    decreases list.len(),
{
    if list.len() > 0 {
        let front = list.drop_last();
        law_by_address(front);
        lemma_inserted(by_address(front), list.last());
        assert forall|k: usize| #[trigger] at_address(by_address(list), k) == at_address(list, k)
            by {
            assert(at_address(inserted(by_address(front), list.last()), k) == at_address(
                by_address(front).push(list.last()),
                k,
            ));
            lemma_at_push(by_address(front), list.last(), k);
            lemma_at_push(front, list.last(), k);
            assert(front.push(list.last()) =~= list);
            assert(at_address(by_address(front), k) == at_address(front, k));
        }
    }
}

/// The matches of two ordered lists in order, those of `left` first at the same address.
fn merge(left: Vec<MatchedAddress>, right: Vec<MatchedAddress>) -> (r: Vec<MatchedAddress>)
    requires
        is_ordered(views(left@)),
        is_ordered(views(right@)),
    ensures
        is_ordered(views(r@)),
        forall|k: usize| #[trigger]
            at_address(views(r@), k) == at_address(views(left@), k) + at_address(
                views(right@),
                k,
            ),
{
    let ghost left_all = views(left@);
    let ghost right_all = views(right@);
    let mut left: Vec<MatchedAddress> = left;
    let mut right: Vec<MatchedAddress> = right;
    // What is taken from the back of the two lists, last first.
    let mut taken: Vec<MatchedAddress> = Vec::new();
    let ghost mut tail: Seq<MatchView> = Seq::empty();
    proof {
        assert forall|k: usize|
            #![trigger at_address(tail, k)]
            at_address(left_all, k) + at_address(right_all, k) == at_address(views(left@), k)
                + at_address(views(right@), k) + at_address(tail, k) by {
            lemma_at_absent(tail, k);
            assert(at_address(left_all, k) + at_address(right_all, k) =~= at_address(left_all, k)
                + at_address(right_all, k) + at_address(tail, k));
        }
    }
    while left.len() > 0 || right.len() > 0
        invariant
            is_ordered(views(left@)),
            is_ordered(views(right@)),
            is_ordered(tail),
            taken.len() == tail.len(),
            forall|i: int|
                0 <= i < taken.len() ==> (#[trigger] taken@[i])@ == tail[tail.len() - 1 - i],
            forall|i: int, j: int|
                0 <= i < left.len() && 0 <= j < tail.len() ==> (#[trigger] left@[i]).address
                    <= (#[trigger] tail[j]).address,
            forall|i: int, j: int|
                0 <= i < right.len() && 0 <= j < tail.len() ==> (#[trigger] right@[i]).address
                    <= (#[trigger] tail[j]).address,
            forall|k: usize|
                #![trigger at_address(tail, k)]
                at_address(left_all, k) + at_address(right_all, k) == at_address(views(left@), k)
                    + at_address(views(right@), k) + at_address(tail, k),
        decreases left.len() + right.len(),
    {
        let ghost left_before = views(left@);
        let ghost right_before = views(right@);
        let ghost tail_before = tail;
        let from_right: bool = if right.len() == 0 {
            false
        } else if left.len() == 0 {
            true
        } else {
            left[left.len() - 1].address <= right[right.len() - 1].address
        };
        proof {
            assert(forall|i: int|
                0 <= i < left.len() ==> left_before[i].address == (#[trigger] left@[i]).address);
            assert(forall|i: int|
                0 <= i < right.len() ==> right_before[i].address
                    == (#[trigger] right@[i]).address);
        }
        let popped: Option<MatchedAddress> = if from_right {
            right.pop()
        } else {
            left.pop()
        };
        if let Some(m) = popped {
            proof {
                tail = seq![m@] + tail_before;
                if from_right {
                    assert(views(right@) =~= right_before.drop_last());
                    assert(views(left@) =~= left_before);
                    assert(right_before =~= views(right@).push(m@));
                } else {
                    assert(views(left@) =~= left_before.drop_last());
                    assert(views(right@) =~= right_before);
                    assert(left_before =~= views(left@).push(m@));
                }
                assert forall|k: usize|
                    #![trigger at_address(tail, k)]
                    at_address(left_all, k) + at_address(right_all, k) == at_address(
                        views(left@),
                        k,
                    ) + at_address(views(right@), k) + at_address(tail, k) by {
                    assert(at_address(left_all, k) + at_address(right_all, k) == at_address(
                        left_before,
                        k,
                    ) + at_address(right_before, k) + at_address(tail_before, k));
                    lemma_at_add(seq![m@], tail_before, k);
                    lemma_at_push(Seq::empty(), m@, k);
                    lemma_at_absent(Seq::empty(), k);
                    assert(seq![m@] =~= Seq::empty().push(m@));
                    if from_right {
                        lemma_at_push(views(right@), m@, k);
                    } else {
                        lemma_at_push(views(left@), m@, k);
                        if m@.address == k {
                            assert forall|i: int| 0 <= i < right_before.len() implies (
                            #[trigger] right_before[i]).address != k by {
                                assert(right_before[i].address <= right_before.last().address);
                                assert(right_before.last().address == right@[right.len()
                                    - 1].address);
                            }
                            lemma_at_absent(right_before, k);
                        }
                    }
                    assert(at_address(left_before, k) + at_address(right_before, k) + at_address(
                        tail_before,
                        k,
                    ) =~= at_address(views(left@), k) + at_address(views(right@), k) + at_address(
                        tail,
                        k,
                    ));
                }
                assert forall|i: int, j: int| 0 <= i < left.len() && 0 <= j < tail.len() implies (
                #[trigger] left@[i]).address <= (#[trigger] tail[j]).address by {
                    assert(left_before[i].address == left@[i].address);
                    assert(left_before[i].address <= left_before.last().address);
                }
                assert forall|i: int, j: int| 0 <= i < right.len() && 0 <= j < tail.len() implies (
                #[trigger] right@[i]).address <= (#[trigger] tail[j]).address by {
                    assert(right_before[i].address == right@[i].address);
                    assert(right_before[i].address <= right_before.last().address);
                }
            }
            taken.push(m);
        }
    }
    let mut out: Vec<MatchedAddress> = Vec::with_capacity(taken.len());
    while taken.len() > 0
        invariant
            taken.len() + out.len() == tail.len(),
            forall|i: int|
                0 <= i < taken.len() ==> (#[trigger] taken@[i])@ == tail[tail.len() - 1 - i],
            forall|i: int| 0 <= i < out.len() ==> (#[trigger] out@[i])@ == tail[i],
        decreases taken.len(),
    {
        if let Some(m) = taken.pop() {
            out.push(m);
        }
    }
    proof {
        assert(views(out@) =~= tail);
        assert forall|k: usize| #[trigger]
            at_address(views(out@), k) == at_address(left_all, k) + at_address(right_all, k) by {
            assert(at_address(left_all, k) + at_address(right_all, k) == at_address(
                views(left@),
                k,
            ) + at_address(views(right@), k) + at_address(tail, k));
            lemma_at_absent(views(left@), k);
            lemma_at_absent(views(right@), k);
            assert(at_address(tail, k) =~= Seq::<MatchView>::empty() + Seq::<MatchView>::empty()
                + at_address(tail, k));
        }
    }
    out
}

/// Orders matches by address, keeping the order of those at the same address.
pub fn sort_by_address(list: Vec<MatchedAddress>) -> (r: Vec<MatchedAddress>)
    ensures
        views(r@) == by_address(views(list@)),
    decreases list.len(),
{
    let ghost all = views(list@);
    let mut left: Vec<MatchedAddress> = list;
    if left.len() <= 1 {
        proof {
            law_by_address(all);
            lemma_ordered_unique(all, by_address(all));
        }
        return left;
    }
    let middle: usize = left.len() / 2;
    let right: Vec<MatchedAddress> = left.split_off(middle);
    let ghost left_half = views(left@);
    let ghost right_half = views(right@);
    let left: Vec<MatchedAddress> = sort_by_address(left);
    let right: Vec<MatchedAddress> = sort_by_address(right);
    proof {
        law_by_address(left_half);
        law_by_address(right_half);
    }
    let out: Vec<MatchedAddress> = merge(left, right);
    proof {
        law_by_address(all);
        assert(all =~= left_half + right_half);
        assert forall|k: usize| #[trigger] at_address(views(out@), k) == at_address(
            by_address(all),
            k,
        ) by {
            lemma_at_add(left_half, right_half, k);
            assert(at_address(by_address(left_half), k) == at_address(left_half, k));
            assert(at_address(by_address(right_half), k) == at_address(right_half, k));
            assert(at_address(by_address(all), k) == at_address(all, k));
        }
        lemma_ordered_unique(views(out@), by_address(all));
    }
    out
}

} // verus!
