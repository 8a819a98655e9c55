//! Reading the listing of a process's memory regions.
//!
//! The listing is text with one region per line: the first and last address with a dash between
//! them, the protection, and the path of the mapped file where there is one. Everything behind
//! these, and every line of another form, is passed over.

use vstd::prelude::*;
use vstd::utf8::{decode_utf8, valid_utf8};

use crate::process::{inspect, process_step, ProcessStep};
use crate::reply::{served, Body, BodyView, ContentType, Region, RegionView, Reply, ReplyView};
use crate::text::utf8_str;

verus! {

/// What cuts text into pieces.
#[derive(Clone, Copy, Debug, PartialEq, Eq, Structural)]
pub enum Separator {
    Newline,
    WhiteSpace,
    Dash,
}

/// Whether a character is white space by the Unicode property of that name.
pub open spec fn is_white_space(c: char) -> bool {
    ||| '\u{9}' <= c <= '\u{d}'
    ||| c == '\u{20}'
    ||| c == '\u{85}'
    ||| c == '\u{a0}'
    ||| c == '\u{1680}'
    ||| '\u{2000}' <= c <= '\u{200a}'
    ||| c == '\u{2028}'
    ||| c == '\u{2029}'
    ||| c == '\u{202f}'
    ||| c == '\u{205f}'
    ||| c == '\u{3000}'
}

impl Separator {
    /// Whether a character separates.
    pub open spec fn is(self, c: char) -> bool {
        match self {
            Separator::Newline => c == '\n',
            Separator::WhiteSpace => is_white_space(c),
            Separator::Dash => c == '-',
        }
    }

    fn separates(self, c: char) -> (r: bool)
        ensures
            r == self.is(c),
    {
        match self {
            Separator::Newline => c == '\n',
            Separator::WhiteSpace => {
                ('\u{9}' <= c && c <= '\u{d}') || c == '\u{20}' || c == '\u{85}' || c
                    == '\u{a0}' || c == '\u{1680}' || ('\u{2000}' <= c && c <= '\u{200a}') || c
                    == '\u{2028}' || c == '\u{2029}' || c == '\u{202f}' || c == '\u{205f}' || c
                    == '\u{3000}'
            },
            Separator::Dash => c == '-',
        }
    }
}

/// The pieces between separators, one more than there are separators.
pub open spec fn pieces(text: Seq<char>, separator: Separator) -> Seq<Seq<char>>
    decreases text.len(),
{
    if text.len() == 0 {
        seq![Seq::empty()]
    } else {
        let front = pieces(text.drop_last(), separator);
        if separator.is(text.last()) {
            front.push(Seq::empty())
        } else {
            front.drop_last().push(front.last().push(text.last()))
        }
    }
}

/// The words of a line.
pub open spec fn words(line: Seq<char>) -> Seq<Seq<char>> {
    pieces(line, Separator::WhiteSpace).filter(|word: Seq<char>| word.len() > 0)
}

/// The region that a line of words describes.
pub open spec fn region_of(words: Seq<Seq<char>>) -> Option<RegionView> {
    if words.len() >= 2 {
        let ends = pieces(words[0], Separator::Dash);
        if ends.len() == 2 {
            Some(
                RegionView {
                    start_address: ends[0],
                    end_address: ends[1],
                    protection: words[1],
                    file_path: if words.len() > 2 {
                        Some(words[2])
                    } else {
                        None
                    },
                },
            )
        } else {
            None
        }
    } else {
        None
    }
}

/// The regions that a listing describes, in order. A carriage return before the end of a line is
/// white space like any other.
pub open spec fn regions_of(text: Seq<char>) -> Seq<RegionView> {
    pieces(text, Separator::Newline).filter_map(|line: Seq<char>| region_of(words(line)))
}

/// Cutting two texts one after the other joins the last piece of the first with the first piece of
/// the second.
pub proof fn lemma_pieces_add(a: Seq<char>, b: Seq<char>, separator: Separator)
    ensures
        pieces(a, separator).len() > 0,
        pieces(b, separator).len() > 0,
        pieces(a + b, separator) == pieces(a, separator).drop_last().push(
            pieces(a, separator).last() + pieces(b, separator)[0],
        ) + pieces(b, separator).drop_first(),
    decreases a.len() + b.len(),
{
    let first = pieces(a, separator);
    let second = pieces(b, separator);
    let whole = first.drop_last().push(first.last() + second[0]) + second.drop_first();
    if a.len() > 0 {
        lemma_pieces_add(a.drop_last(), Seq::empty(), separator);
    }
    if b.len() == 0 {
        assert(a + b =~= a);
        assert(first.last() + second[0] =~= first.last());
        assert(whole =~= first);
    } else {
        let front = pieces(b.drop_last(), separator);
        lemma_pieces_add(a, b.drop_last(), separator);
        assert((a + b).drop_last() =~= a + b.drop_last());
        let joined = pieces(a + b.drop_last(), separator);
        if separator.is(b.last()) {
            assert(joined.push(Seq::empty()) =~= whole);
        } else {
            let c = b.last();
            if front.len() == 1 {
                assert(first.last() + front[0].push(c) =~= (first.last() + front[0]).push(c));
            }
            assert(joined.drop_last().push(joined.last().push(c)) =~= whole);
        }
    }
}

/// Choosing from two lists one after the other gives what is chosen from each.
pub proof fn lemma_filter_map_add<A, B>(a: Seq<A>, b: Seq<A>, f: spec_fn(A) -> Option<B>)
    ensures
        (a + b).filter_map(f) == a.filter_map(f) + b.filter_map(f),
    decreases b.len(),
{
    if b.len() == 0 {
        assert(a + b =~= a);
        assert(a.filter_map(f) + b.filter_map(f) =~= a.filter_map(f));
    } else {
        lemma_filter_map_add(a, b.drop_last(), f);
        assert((a + b).drop_last() =~= a + b.drop_last());
        assert((a + b).filter_map(f) =~= a.filter_map(f) + b.filter_map(f));
    }
}

/// The regions of a listing of whole lines with another listing behind it are those of the first
/// followed by those of the second.
pub proof fn law_listings_concatenate(a: Seq<char>, b: Seq<char>)
    requires
        a.len() == 0 || a.last() == '\n',
    ensures
        regions_of(a + b) == regions_of(a) + regions_of(b),
{
    let f = |line: Seq<char>| region_of(words(line));
    let first = pieces(a, Separator::Newline);
    let second = pieces(b, Separator::Newline);
    lemma_pieces_add(a, b, Separator::Newline);
    assert(first.last() =~= Seq::empty());
    assert(f(first.last()) is None) by {
        let only = pieces(first.last(), Separator::WhiteSpace);
        let is_word = |word: Seq<char>| word.len() > 0;
        if only.filter(is_word).len() > 0 {
            only.lemma_filter_pred(is_word, 0);
            only.lemma_filter_contains_rev(is_word, only.filter(is_word)[0]);
        }
        assert(words(first.last()).len() == 0);
    }
    assert(first.last() + second[0] =~= second[0]);
    assert(pieces(a + b, Separator::Newline) =~= first.drop_last() + second);
    lemma_filter_map_add(first.drop_last(), second, f);
}

/// The characters of a list of strings.
pub open spec fn char_lists(list: Seq<Vec<char>>) -> Seq<Seq<char>> {
    list.map_values(|chars: Vec<char>| chars@)
}

/// Cuts characters into pieces.
fn cut(text: &Vec<char>, separator: Separator) -> (r: Vec<Vec<char>>)
    ensures
        char_lists(r@) == pieces(text@, separator),
{
    let mut out: Vec<Vec<char>> = Vec::new();
    let mut piece: Vec<char> = Vec::new();
    let mut i: usize = 0;
    assert(text@.take(0) =~= Seq::empty());
    assert(char_lists(out@).push(piece@) =~= pieces(text@.take(0), separator));
    while i < text.len()
        invariant
            i <= text.len(),
            char_lists(out@).push(piece@) == pieces(text@.take(i as int), separator),
        decreases text.len() - i,
    {
        let c: char = text[i];
        let ghost front = char_lists(out@).push(piece@);
        proof {
            assert(text@.take(i + 1).drop_last() =~= text@.take(i as int));
            assert(front.drop_last() =~= char_lists(out@));
            assert(front.last() == piece@);
        }
        if separator.separates(c) {
            out.push(piece);
            piece = Vec::new();
            assert(char_lists(out@) =~= front);
        } else {
            piece.push(c);
        }
        i = i + 1;
        assert(char_lists(out@).push(piece@) =~= pieces(text@.take(i as int), separator));
    }
    assert(text@.take(i as int) =~= text@);
    let ghost whole = char_lists(out@).push(piece@);
    out.push(piece);
    assert(char_lists(out@) =~= whole);
    out
}

/// The words of a line.
fn cut_words(line: &Vec<char>) -> (r: Vec<Vec<char>>)
    ensures
        char_lists(r@) == words(line@),
{
    let mut parts: Vec<Vec<char>> = cut(line, Separator::WhiteSpace);
    let ghost all = pieces(line@, Separator::WhiteSpace);
    let count: usize = parts.len();
    let mut out: Vec<Vec<char>> = Vec::new();
    let mut i: usize = 0;
    proof {
        reveal(Seq::filter);
        assert(char_lists(parts@).len() == count);
        assert(all.take(0) =~= Seq::empty());
        assert(char_lists(out@) =~= all.take(0).filter(|word: Seq<char>| word.len() > 0));
    }
    while i < count
        invariant
            i <= count == all.len(),
            parts.len() == count,
            forall|k: int| i <= k < count ==> (#[trigger] parts@[k])@ == all[k],
            char_lists(out@) == all.take(i as int).filter(|word: Seq<char>| word.len() > 0),
        decreases count - i,
    {
        let mut part: Vec<char> = Vec::new();
        std::mem::swap(&mut parts[i], &mut part);
        let ghost so_far = char_lists(out@);
        proof {
            reveal(Seq::filter);
            assert(all.take(i + 1).drop_last() =~= all.take(i as int));
            assert(part@ == all[i as int]);
        }
        if part.len() > 0 {
            let ghost word = part@;
            out.push(part);
            assert(char_lists(out@) =~= so_far.push(word));
        }
        i = i + 1;
    }
    assert(all.take(count as int) =~= all);
    out
}

/// The string of a list of characters.
fn string_of(chars: &Vec<char>) -> (r: String)
    ensures
        r@ == chars@,
{
    let mut out: String = String::new();
    let mut i: usize = 0;
    while i < chars.len()
        invariant
            i <= chars.len(),
            out@ == chars@.take(i as int),
        decreases chars.len() - i,
    {
        out.push(chars[i]);
        i = i + 1;
        assert(out@ =~= chars@.take(i as int));
    }
    assert(chars@.take(i as int) =~= chars@);
    out
}

/// The region that a line of words describes.
fn read_region(words: &Vec<Vec<char>>) -> (r: Option<Region>)
    ensures
        (match r {
            Some(region) => Some(region@),
            None => None,
        }) == region_of(char_lists(words@)),
{
    if words.len() < 2 {
        return None;
    }
    let ends: Vec<Vec<char>> = cut(&words[0], Separator::Dash);
    let ghost spec_ends = pieces(char_lists(words@)[0], Separator::Dash);
    assert(char_lists(ends@) == spec_ends);
    assert(char_lists(ends@).len() == ends.len());
    if ends.len() != 2 {
        return None;
    }
    assert(char_lists(ends@)[0] == ends@[0]@);
    assert(char_lists(ends@)[1] == ends@[1]@);
    assert(char_lists(words@)[1] == words@[1]@);
    let file_path: Option<String> = if words.len() > 2 {
        assert(char_lists(words@)[2] == words@[2]@);
        Some(string_of(&words[2]))
    } else {
        None
    };
    Some(
        Region {
            start_address: string_of(&ends[0]),
            end_address: string_of(&ends[1]),
            protection: string_of(&words[1]),
            file_path,
        },
    )
}

/// The views of a list of regions.
pub open spec fn region_views(list: Seq<Region>) -> Seq<RegionView> {
    list.map_values(|region: Region| region@)
}

/// The characters of a text.
fn chars_of(text: &str) -> (r: Vec<char>)
    ensures
        r@ == text@,
{
    let mut out: Vec<char> = Vec::new();
    for c in it: text.chars()
        invariant
            out@ == text@.take(it.index()),
            it.seq() == text@,
    {
        out.push(c);
        assert(out@ =~= text@.take(it.index() + 1));
    }
    assert(text@.take(text@.len() as int) =~= text@);
    out
}

/// The regions that a listing describes.
pub fn parse_regions(text: &str) -> (r: Vec<Region>)
    ensures
        region_views(r@) == regions_of(text@),
{
    let chars: Vec<char> = chars_of(text);
    let lines: Vec<Vec<char>> = cut(&chars, Separator::Newline);
    let ghost all = pieces(text@, Separator::Newline);
    let mut out: Vec<Region> = Vec::new();
    let mut i: usize = 0;
    proof {
        assert(char_lists(lines@).len() == lines.len());
        assert(all.take(0) =~= Seq::empty());
        assert(region_views(out@) =~= all.take(0).filter_map(
            |line: Seq<char>| region_of(words(line)),
        ));
    }
    while i < lines.len()
        invariant
            i <= lines.len() == all.len(),
            all == char_lists(lines@),
            region_views(out@) == all.take(i as int).filter_map(
                |line: Seq<char>| region_of(words(line)),
            ),
        decreases lines.len() - i,
    {
        let ghost so_far = region_views(out@);
        proof {
            assert(all.take(i + 1).drop_last() =~= all.take(i as int));
            assert(all[i as int] == lines@[i as int]@);
        }
        if let Some(region) = read_region(&cut_words(&lines[i])) {
            let ghost view = region@;
            out.push(region);
            assert(region_views(out@) =~= so_far + seq![view]);
        }
        i = i + 1;
    }
    assert(all.take(i as int) =~= all);
    out
}

/// Decides what a request for the memory regions asks for.
pub fn enumerate_regions_handler(pid_state: Option<i32>) -> (r: ProcessStep)
    ensures
        r@ == process_step(pid_state),
{
    inspect(pid_state)
}

/// The reply to a request for the regions with this listing, where it is text.
pub open spec fn regions_told(listing: Seq<u8>) -> Option<ReplyView> {
    if valid_utf8(listing) {
        Some(served(ContentType::Json, BodyView::Regions(regions_of(decode_utf8(listing)))))
    } else {
        None
    }
}

/// Answers with the regions of a listing, where it is text.
pub fn regions_reply(listing: &Vec<u8>) -> (r: Option<Reply>)
    ensures
        (match r {
            Some(reply) => Some(reply@),
            None => None,
        }) == regions_told(listing@),
{
    match utf8_str(listing.as_slice()) {
        Some(text) => Some(Reply::serve(ContentType::Json, Body::Regions(parse_regions(text)))),
        None => None,
    }
}

} // verus!
