//! How a value read again relates to the value seen before, and which filters that satisfies.

use vstd::prelude::*;

use crate::text::spells;

verus! {

/// How a new value stands to an old one. Two values of which one is not a number are unordered.
#[derive(Clone, Copy, Debug, PartialEq, Eq, Structural)]
pub enum Relation {
    Less,
    Equal,
    Greater,
    Unordered,
}

/// What a filter asks of the values it keeps.
#[derive(Clone, Copy, Debug, PartialEq, Eq, Structural)]
pub enum FilterMethod {
    Exact,
    Changed,
    Unchanged,
    Increased,
    Decreased,
    Other,
}

/// The method that a request names.
pub open spec fn filter_method(name: Seq<char>) -> FilterMethod {
    if name == "exact"@ {
        FilterMethod::Exact
    } else if name == "changed"@ {
        FilterMethod::Changed
    } else if name == "unchanged"@ {
        FilterMethod::Unchanged
    } else if name == "increased"@ {
        FilterMethod::Increased
    } else if name == "decreased"@ {
        FilterMethod::Decreased
    } else {
        FilterMethod::Other
    }
}

impl FilterMethod {
    /// The method that a request names.
    pub fn parse(name: &String) -> (r: FilterMethod)
        ensures
            r == filter_method(name@),
    {
        if spells(name, "exact") {
            FilterMethod::Exact
        } else if spells(name, "changed") {
            FilterMethod::Changed
        } else if spells(name, "unchanged") {
            FilterMethod::Unchanged
        } else if spells(name, "increased") {
            FilterMethod::Increased
        } else if spells(name, "decreased") {
            FilterMethod::Decreased
        } else {
            FilterMethod::Other
        }
    }

    /// Whether a value that stands in `relation` to the old one satisfies this method.
    pub open spec fn passes(self, relation: Relation) -> bool {
        match self {
            FilterMethod::Changed => relation != Relation::Equal,
            FilterMethod::Unchanged => relation == Relation::Equal,
            FilterMethod::Increased => relation == Relation::Greater,
            FilterMethod::Decreased => relation == Relation::Less,
            _ => false,
        }
    }

    /// Whether a value that stands in `relation` to the old one satisfies this method.
    pub fn accepts(self, relation: Relation) -> (r: bool)
        ensures
            r == self.passes(relation),
    {
        match self {
            FilterMethod::Changed => relation != Relation::Equal,
            FilterMethod::Unchanged => relation == Relation::Equal,
            FilterMethod::Increased => relation == Relation::Greater,
            FilterMethod::Decreased => relation == Relation::Less,
            _ => false,
        }
    }
}

/// How `a` stands to `b` byte by byte from the front, a prefix coming before what it begins.
pub open spec fn byte_relation(a: Seq<u8>, b: Seq<u8>) -> Relation
    decreases a.len(),
{
    if a.len() == 0 {
        if b.len() == 0 {
            Relation::Equal
        } else {
            Relation::Less
        }
    } else if b.len() == 0 {
        Relation::Greater
    } else if a[0] < b[0] {
        Relation::Less
    } else if a[0] > b[0] {
        Relation::Greater
    } else {
        byte_relation(a.drop_first(), b.drop_first())
    }
}

/// How the `size` bytes of `a` at `at` stand to those of `b` at the same place.
pub fn window_relation(a: &[u8], b: &[u8], at: usize, size: usize) -> (r: Relation)
    requires
        at + size <= a.len(),
        at + size <= b.len(),
    ensures
        r == byte_relation(a@.subrange(at as int, at + size), b@.subrange(at as int, at + size)),
{
    let end: usize = at + size;
    let mut i: usize = at;
    while i < end
        invariant
            at <= i <= end == at + size,
            end <= a@.len(),
            end <= b@.len(),
            byte_relation(a@.subrange(at as int, end as int), b@.subrange(at as int, end as int))
                == byte_relation(
                a@.subrange(i as int, end as int),
                b@.subrange(i as int, end as int),
            ),
        decreases end - i,
    {
        if a[i] < b[i] {
            return Relation::Less;
        }
        if a[i] > b[i] {
            return Relation::Greater;
        }
        proof {
            assert(a@.subrange(i as int, end as int).drop_first() =~= a@.subrange(
                i + 1,
                end as int,
            ));
            assert(b@.subrange(i as int, end as int).drop_first() =~= b@.subrange(
                i + 1,
                end as int,
            ));
        }
        i = i + 1;
    }
    Relation::Equal
}

/// How one whole number stands to another.
pub open spec fn int_relation(a: int, b: int) -> Relation {
    if a < b {
        Relation::Less
    } else if a > b {
        Relation::Greater
    } else {
        Relation::Equal
    }
}

/// Byte strings are equal exactly where this relation says so.
pub proof fn law_byte_relation_equal(a: Seq<u8>, b: Seq<u8>)
    ensures
        byte_relation(a, b) == Relation::Equal <==> a == b,
        byte_relation(a, b) != Relation::Unordered,
    decreases a.len(),
{
    if a.len() == 0 {
        if b.len() == 0 {
            assert(a =~= b);
        }
    } else if b.len() > 0 && a[0] == b[0] {
        law_byte_relation_equal(a.drop_first(), b.drop_first());
        if a.drop_first() == b.drop_first() {
            assert(a =~= seq![a[0]] + a.drop_first());
            assert(b =~= seq![b[0]] + b.drop_first());
        }
    }
}

/// What has changed is exactly what is not unchanged, and what rose or fell has changed.
pub proof fn law_methods_partition(relation: Relation)
    ensures
        FilterMethod::Changed.passes(relation) != FilterMethod::Unchanged.passes(relation),
        FilterMethod::Increased.passes(relation) ==> FilterMethod::Changed.passes(relation),
        FilterMethod::Decreased.passes(relation) ==> FilterMethod::Changed.passes(relation),
        !(FilterMethod::Increased.passes(relation) && FilterMethod::Decreased.passes(relation)),
{
}

} // verus!
