//! Finding byte strings and regular expressions in a buffer.

use regex::bytes::Regex;
use vstd::prelude::*;

verus! {

/// Whether `needle` stands in `haystack` at `at`.
pub open spec fn occurs_at(haystack: Seq<u8>, needle: Seq<u8>, at: int) -> bool {
    &&& 0 <= at <= at + needle.len() <= haystack.len()
    &&& haystack.subrange(at, at + needle.len()) == needle
}

/// The places at or after `from` where `needle` stands in `haystack`, from left to right, each
/// beginning no earlier than the one before it ends. An empty needle stands everywhere.
pub open spec fn occurrences(haystack: Seq<u8>, needle: Seq<u8>, from: int) -> Seq<usize>
    decreases haystack.len() + 1 - from,
{
    if from + needle.len() > haystack.len() {
        Seq::empty()
    } else if occurs_at(haystack, needle, from) {
        let step = if needle.len() == 0 {
            1
        } else {
            needle.len() as int
        };
        seq![from as usize] + occurrences(haystack, needle, from + step)
    } else {
        occurrences(haystack, needle, from + 1)
    }
}

/// `memchr::memmem::find_iter`: all places where `needle` stands, from left to right and without
/// overlaps.
#[verifier::external_body]
pub(crate) fn find_all(haystack: &[u8], needle: &[u8]) -> (r: Vec<usize>)
    ensures
        r@ == occurrences(haystack@, needle@, 0),
{
    memchr::memmem::find_iter(haystack, needle).collect()
}

/// The begin and end of every match that `regex::bytes::Regex` finds for a pattern in a haystack,
/// or nothing where it does not accept the pattern. Patterns are refused beyond a size counted in
/// bytes of memory, so the width of a pointer counts too.
pub uninterp spec fn regex_spans_by_width(
    pattern: Seq<char>,
    haystack: Seq<u8>,
    pointer_bits: int,
) -> Option<Seq<(usize, usize)>>;

/// The begin and end of every match of `pattern` in `haystack` on this machine, or nothing where
/// the pattern is not accepted.
pub open spec fn regex_spans(pattern: Seq<char>, haystack: Seq<u8>) -> Option<
    Seq<(usize, usize)>,
> {
    regex_spans_by_width(pattern, haystack, usize::BITS as int)
}

/// Whether every span lies in a buffer of `len` bytes.
pub open spec fn spans_within(spans: Seq<(usize, usize)>, len: int) -> bool {
    forall|i: int| 0 <= i < spans.len() ==> (#[trigger] spans[i]).0 <= spans[i].1 <= len
}

/// Whether every span begins where the ones before it have ended.
pub open spec fn spans_ascend(spans: Seq<(usize, usize)>) -> bool {
    forall|i: int, j: int|
        0 <= i < j < spans.len() ==> (#[trigger] spans[i]).1 <= (#[trigger] spans[j]).0
            && spans[i].0 <= spans[j].0
}

/// `regex::bytes::Regex::new` and `captures_iter`: the span of the whole match for every match,
/// from left to right and without overlaps, or nothing where the pattern is refused. Every span
/// lies in the haystack.
#[verifier::external_body]
pub(crate) fn find_spans(pattern: &str, haystack: &[u8]) -> (r: Option<Vec<(usize, usize)>>)
    ensures
        r is Some <==> regex_spans_by_width(pattern@, haystack@, usize::BITS as int) is Some,
        r matches Some(spans) ==> {
            &&& regex_spans_by_width(pattern@, haystack@, usize::BITS as int) == Some(spans@)
            &&& spans_within(spans@, haystack@.len() as int)
            &&& spans_ascend(spans@)
        },
{
    let re = Regex::new(pattern).ok()?;
    let whole = re.captures_iter(haystack).map(|found| found.get(0).unwrap());
    Some(whole.map(|span| (span.start(), span.end())).collect())
}

/// `regex::bytes::Regex::new` and `is_match`: whether there is any match, or nothing where the
/// pattern is refused.
#[verifier::external_body]
pub(crate) fn any_span(pattern: &str, haystack: &[u8]) -> (r: Option<bool>)
    ensures
        r == (match regex_spans_by_width(pattern@, haystack@, usize::BITS as int) {
            Some(spans) => Some(spans.len() > 0),
            None => None,
        }),
{
    let re = Regex::new(pattern).ok()?;
    Some(re.is_match(haystack))
}

/// Every reported place is an occurrence, every one begins where the one before it has ended, and
/// none is passed over: an occurrence that is not reported begins inside a reported one.
pub proof fn law_occurrences(haystack: Seq<u8>, needle: Seq<u8>, from: int)
    requires
        0 <= from,
        haystack.len() <= usize::MAX,
    ensures
        forall|i: int|
            0 <= i < occurrences(haystack, needle, from).len() ==> {
                let at = #[trigger] occurrences(haystack, needle, from)[i];
                from <= at && occurs_at(haystack, needle, at as int)
            },
        forall|i: int, j: int|
            0 <= i < j < occurrences(haystack, needle, from).len() ==> #[trigger] occurrences(
                haystack,
                needle,
                from,
            )[i] + needle.len() <= #[trigger] occurrences(haystack, needle, from)[j]
                && occurrences(haystack, needle, from)[i] < occurrences(haystack, needle, from)[j],
        forall|at: int|
            from <= at && #[trigger] occurs_at(haystack, needle, at) ==> exists|i: int|
                0 <= i < occurrences(haystack, needle, from).len() && (#[trigger] occurrences(
                    haystack,
                    needle,
                    from,
                )[i] == at || occurrences(haystack, needle, from)[i] < at < occurrences(
                    haystack,
                    needle,
                    from,
                )[i] + needle.len()),
    decreases haystack.len() + 1 - from,
{
    let all = occurrences(haystack, needle, from);
    if from + needle.len() > haystack.len() {
    } else if occurs_at(haystack, needle, from) {
        let step = if needle.len() == 0 {
            1
        } else {
            needle.len() as int
        };
        let rest = occurrences(haystack, needle, from + step);
        law_occurrences(haystack, needle, from + step);
        assert forall|i: int| 0 <= i < all.len() implies {
            let at = #[trigger] all[i];
            from <= at && occurs_at(haystack, needle, at as int)
        } by {
            if i > 0 {
                assert(all[i] == rest[i - 1]);
            }
        }
        assert forall|i: int, j: int| 0 <= i < j < all.len() implies #[trigger] all[i]
            + needle.len() <= #[trigger] all[j] && all[i] < all[j] by {
            assert(all[j] == rest[j - 1]);
            if i > 0 {
                assert(all[i] == rest[i - 1]);
            }
        }
        assert forall|at: int| from <= at && #[trigger] occurs_at(
            haystack,
            needle,
            at,
        ) implies exists|i: int|
            0 <= i < all.len() && (#[trigger] all[i] == at || all[i] < at < all[i]
                + needle.len()) by {
            if at < from + step {
                assert(all[0] == from);
            } else {
                let i = choose|i: int|
                    0 <= i < rest.len() && (#[trigger] rest[i] == at || rest[i] < at < rest[i]
                        + needle.len());
                assert(all[i + 1] == rest[i]);
            }
        }
    } else {
        law_occurrences(haystack, needle, from + 1);
        assert forall|at: int| from <= at && #[trigger] occurs_at(
            haystack,
            needle,
            at,
        ) implies exists|i: int|
            0 <= i < all.len() && (#[trigger] all[i] == at || all[i] < at < all[i]
                + needle.len()) by {
            assert(at != from);
        }
    }
}

} // verus!
