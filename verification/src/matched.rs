//! Addresses at which something was found, with the value found there.

use vstd::prelude::*;

verus! {

/// An address and the hexadecimal value seen at it.
#[derive(Debug, PartialEq, Eq)]
pub struct MatchedAddress {
    pub address: usize,
    pub value: String,
}

/// An address and the text of its value.
#[verifier::ext_equal]
pub struct MatchView {
    pub address: usize,
    pub value: Seq<char>,
}

impl View for MatchedAddress {
    type V = MatchView;

    open spec fn view(&self) -> MatchView {
        MatchView { address: self.address, value: self.value@ }
    }
}

/// The views of a list of matches.
pub open spec fn views(list: Seq<MatchedAddress>) -> Seq<MatchView> {
    list.map_values(|m: MatchedAddress| m@)
}

/// Several lists, one after the other.
pub open spec fn joined<T>(lists: Seq<Seq<T>>) -> Seq<T>
    decreases lists.len(),
{
    if lists.len() == 0 {
        Seq::empty()
    } else {
        joined(lists.drop_last()) + lists.last()
    }
}

impl MatchedAddress {
    /// The same match again.
    pub fn copy(&self) -> (r: MatchedAddress)
        ensures
            r@ == self@,
    {
        MatchedAddress { address: self.address, value: self.value.clone() }
    }
}

/// A copy of the first `n` matches.
pub fn copy_prefix(list: &Vec<MatchedAddress>, n: usize) -> (r: Vec<MatchedAddress>)
    requires
        n <= list.len(),
    ensures
        views(r@) == views(list@).take(n as int),
{
    let mut out: Vec<MatchedAddress> = Vec::with_capacity(n);
    let mut i: usize = 0;
    while i < n
        invariant
            i <= n <= list.len(),
            out.len() == i,
            forall|k: int| 0 <= k < i ==> (#[trigger] out@[k])@ == list@[k]@,
        decreases n - i,
    {
        out.push(list[i].copy());
        i = i + 1;
    }
    assert(views(out@) =~= views(list@).take(n as int));
    out
}

} // verus!
