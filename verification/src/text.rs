//! Text as UTF-8 bytes: comparison, and cutting at a separator.

use vstd::prelude::*;
use vstd::string::*;
use vstd::utf8::*;

verus! {

/// The line feed.
pub const LINE_FEED: u8 = 10;

/// The position of the first `sep` in `bytes`, or the length of `bytes` where
/// there is none.
pub open spec fn first_of(bytes: Seq<u8>, sep: u8) -> nat
    decreases bytes.len(),
{
    if bytes.len() == 0 || bytes[0] == sep {
        0
    } else {
        1 + first_of(bytes.drop_first(), sep)
    }
}

/// One piece of a text: where it starts, and what it holds.
pub struct Piece {
    /// The number of bytes before the piece.
    pub start: nat,
    /// The bytes of the piece.
    pub bytes: Seq<u8>,
}

/// The pieces of `bytes` between the occurrences of `sep`, each with its start,
/// which counts from `base`. There is one piece more than there are separators,
/// so that bytes which end in a separator end in an empty piece.
pub open spec fn pieces(bytes: Seq<u8>, sep: u8, base: nat) -> Seq<Piece>
    decreases bytes.len(),
{
    let k = first_of(bytes, sep);
    if k >= bytes.len() {
        seq![Piece { start: base, bytes }]
    } else {
        seq![Piece { start: base, bytes: bytes.take(k as int) }] + pieces(
            bytes.skip(k as int + 1),
            sep,
            base + k + 1,
        )
    }
}

/// The lines of a text: its pieces between line feeds.
pub open spec fn lines_of(bytes: Seq<u8>) -> Seq<Piece> {
    pieces(bytes, LINE_FEED, 0)
}

/// What a cut line stands for.
pub open spec fn piece_of(line: (usize, &str)) -> Piece {
    Piece { start: line.0 as nat, bytes: line.1.spec_bytes() }
}

/// What each of the cut lines stands for.
pub open spec fn pieces_of(lines: Seq<(usize, &str)>) -> Seq<Piece> {
    lines.map_values(|line: (usize, &str)| piece_of(line))
}

/// The strings without those that an earlier one equals, in the order in which
/// they first occur.
pub open spec fn distinct(items: Seq<Seq<char>>) -> Seq<Seq<char>>
    decreases items.len(),
{
    if items.len() == 0 {
        items
    } else {
        let before = distinct(items.drop_last());
        if before.contains(items.last()) {
            before
        } else {
            before.push(items.last())
        }
    }
}

/// The characters of each string.
pub open spec fn texts(list: Seq<String>) -> Seq<Seq<char>> {
    list.map_values(|s: String| s@)
}

/// The characters of a string that may be missing.
pub open spec fn text_of(found: Option<String>) -> Option<Seq<char>> {
    match found {
        Some(s) => Some(s@),
        None => None,
    }
}

/// The characters of each string of a list in which some may be missing.
pub open spec fn texts_of(found: Seq<Option<String>>) -> Seq<Option<Seq<char>>> {
    found.map_values(|item: Option<String>| text_of(item))
}

/// `first_of` is the first position that holds the separator.
pub proof fn lemma_first_of(bytes: Seq<u8>, sep: u8)
    ensures
        first_of(bytes, sep) <= bytes.len(),
        first_of(bytes, sep) < bytes.len() ==> bytes[first_of(bytes, sep) as int] == sep,
        forall|i: int| 0 <= i < first_of(bytes, sep) ==> bytes[i] != sep,
    decreases bytes.len(),
{
    if bytes.len() == 0 || bytes[0] == sep {
    } else {
        let rest = bytes.drop_first();
        lemma_first_of(rest, sep);
        assert forall|i: int| 0 <= i < first_of(bytes, sep) implies bytes[i] != sep by {
            if i > 0 {
                assert(bytes[i] == rest[i - 1]);
            }
        }
    }
}

/// A position that holds the separator after none that does is `first_of`.
pub proof fn lemma_first_of_at(bytes: Seq<u8>, sep: u8, k: int)
    requires
        0 <= k <= bytes.len(),
        k < bytes.len() ==> bytes[k] == sep,
        forall|i: int| 0 <= i < k ==> bytes[i] != sep,
    ensures
        first_of(bytes, sep) == k,
{
    lemma_first_of(bytes, sep);
    let f = first_of(bytes, sep) as int;
    if f < k {
        assert(bytes[f] != sep);
    }
}

/// Strings with the same bytes hold the same characters.
pub proof fn lemma_same_bytes(a: &str, b: &str)
    ensures
        (a.spec_bytes() == b.spec_bytes()) == (a@ == b@),
{
    encode_utf8_decode_utf8(a@);
    encode_utf8_decode_utf8(b@);
}

/// A string holds the characters that its bytes encode.
pub proof fn lemma_decoded(a: &str)
    ensures
        a@ == decode_utf8(a.spec_bytes()),
        valid_utf8(a.spec_bytes()),
{
    encode_utf8_decode_utf8(a@);
    encode_utf8_valid_utf8(a@);
}

/// Whether two strings hold the same characters.
pub fn same_text(a: &str, b: &str) -> (r: bool)
    ensures
        r == (a@ == b@),
{
    let x = a.as_bytes();
    let y = b.as_bytes();
    proof {
        lemma_same_bytes(a, b);
    }
    if x.len() != y.len() {
        return false;
    }
    let mut i: usize = 0;
    while i < x.len()
        invariant
            i <= x.len(),
            x.len() == y.len(),
            (x@ == y@) == (a@ == b@),
            forall|j: int| 0 <= j < i ==> x@[j] == y@[j],
        decreases x.len() - i,
    {
        if x[i] != y[i] {
            assert(x@[i as int] != y@[i as int]);
            return false;
        }
        i += 1;
    }
    assert(x@ =~= y@);
    true
}

/// The position of the first line feed in `bytes`, or their length.
pub fn find_line_feed(bytes: &[u8]) -> (k: usize)
    ensures
        k == first_of(bytes@, LINE_FEED),
        k <= bytes@.len(),
{
    let mut k: usize = 0;
    while k < bytes.len() && bytes[k] != LINE_FEED
        invariant
            k <= bytes.len(),
            forall|i: int| 0 <= i < k ==> bytes@[i] != LINE_FEED,
        decreases bytes.len() - k,
    {
        k += 1;
    }
    proof {
        lemma_first_of_at(bytes@, LINE_FEED, k as int);
    }
    k
}

/// Cuts the first line off `text`: what stands before the first line feed, and
/// what stands behind it, `None` where `text` holds no line feed.
pub fn cut_line<'a>(text: &'a str) -> (r: (&'a str, Option<&'a str>))
    ensures
        r.0.spec_bytes() == text.spec_bytes().take(first_of(text.spec_bytes(), LINE_FEED) as int),
        (r.1 is None) == (first_of(text.spec_bytes(), LINE_FEED) >= text.spec_bytes().len()),
        r.1 matches Some(rest) ==> rest.spec_bytes() == text.spec_bytes().skip(
            first_of(text.spec_bytes(), LINE_FEED) as int + 1,
        ),
{
    let bytes = text.as_bytes();
    let k = find_line_feed(bytes);
    let ghost b = text.spec_bytes();
    proof {
        lemma_decoded(text);
        lemma_first_of(b, LINE_FEED);
    }
    if k >= bytes.len() {
        assert(b.take(k as int) =~= b);
        return (text, None);
    }
    proof {
        is_char_boundary_iff_not_is_continuation_byte(b, k as int);
    }
    let (line, tail) = text.split_at(k);
    proof {
        lemma_decoded(tail);
        let t = tail.spec_bytes();
        assert(t[0] == LINE_FEED);
        reveal_with_fuel(is_char_boundary, 2);
        reveal_with_fuel(valid_utf8, 2);
        assert(length_of_first_scalar(t) == 1);
        assert(is_char_boundary(t, 1));
    }
    let (_, rest) = tail.split_at(1);
    assert(rest.spec_bytes() =~= b.skip(k + 1));
    assert(line.spec_bytes() =~= b.take(k as int));
    (line, Some(rest))
}

/// Whether `list` holds a string with the characters of `item`.
pub fn holds(list: &Vec<String>, item: &str) -> (r: bool)
    ensures
        r == texts(list@).contains(item@),
{
    let mut i: usize = 0;
    while i < list.len()
        invariant
            i <= list.len(),
            forall|j: int| 0 <= j < i ==> texts(list@)[j] != item@,
        decreases list.len() - i,
    {
        if same_text(list[i].as_str(), item) {
            assert(texts(list@)[i as int] == item@);
            return true;
        }
        i += 1;
    }
    false
}

/// Appends `item` to `list` unless the list holds it.
pub fn push_distinct(list: &mut Vec<String>, item: String)
    ensures
        texts(final(list)@) == if texts(old(list)@).contains(item@) {
            texts(old(list)@)
        } else {
            texts(old(list)@).push(item@)
        },
{
    if !holds(list, item.as_str()) {
        list.push(item);
        assert(texts(list@) =~= texts(old(list)@).push(item@));
    }
}

/// The lines of `text`, each with the number of bytes before it: what stands
/// between the line feeds. Every line starts at a character boundary of `text`.
pub fn split_lines<'a>(text: &'a str) -> (lines: Vec<(usize, &'a str)>)
    ensures
        pieces_of(lines@) == lines_of(text.spec_bytes()),
        forall|i: int|
            0 <= i < lines@.len() ==> (#[trigger] lines@[i]).0 <= text.spec_bytes().len()
                && is_char_boundary(text.spec_bytes(), lines@[i].0 as int),
{
    let mut lines: Vec<(usize, &'a str)> = Vec::new();
    let mut rest: &'a str = text;
    let mut base: usize = 0;
    let ghost whole = text.spec_bytes();
    let ghost all = lines_of(whole);
    let total = text.as_bytes().len();
    assert(pieces_of(lines@) =~= Seq::<Piece>::empty());
    assert(whole.skip(0) =~= whole);
    proof {
        lemma_decoded(text);
        is_char_boundary_start_end_of_seq(whole);
    }
    loop
        invariant_except_break
            all == pieces_of(lines@) + pieces(rest.spec_bytes(), LINE_FEED, base as nat),
            is_char_boundary(whole, base as int),
        invariant
            whole == text.spec_bytes(),
            valid_utf8(whole),
            total == whole.len(),
            base <= whole.len(),
            rest.spec_bytes() == whole.skip(base as int),
            forall|i: int|
                0 <= i < lines@.len() ==> (#[trigger] lines@[i]).0 <= whole.len()
                    && is_char_boundary(whole, lines@[i].0 as int),
        ensures
            pieces_of(lines@) == all,
        decreases rest.spec_bytes().len(),
    {
        let ghost before = lines@;
        let ghost b = rest.spec_bytes();
        proof {
            lemma_first_of(b, LINE_FEED);
        }
        let (line, tail) = cut_line(rest);
        lines.push((base, line));
        assert(pieces_of(lines@) =~= pieces_of(before).push(piece_of((base, line))));
        match tail {
            Some(next) => {
                assert(line.spec_bytes().len() == first_of(b, LINE_FEED));
                assert(b.len() == whole.len() - base);
                let step = line.as_bytes().len() + 1;
                proof {
                    let k = first_of(b, LINE_FEED) as int;
                    assert(step == k + 1);
                    assert(all =~= pieces_of(lines@) + pieces(
                        next.spec_bytes(),
                        LINE_FEED,
                        (base + step) as nat,
                    ));
                    assert(next.spec_bytes() =~= whole.skip(base + step));
                    lemma_decoded(next);
                    let n = next.spec_bytes();
                    if base + step < whole.len() {
                        assert(n[0] == whole[base + step]);
                        reveal_with_fuel(valid_utf8, 2);
                        assert(!is_continuation_byte(n[0]));
                        is_char_boundary_iff_not_is_continuation_byte(whole, base + step);
                    } else {
                        is_char_boundary_start_end_of_seq(whole);
                    }
                }
                base = base + step;
                rest = next;
            },
            None => {
                assert(b.take(b.len() as int) =~= b);
                assert(pieces(b, LINE_FEED, base as nat) =~= seq![
                    Piece { start: base as nat, bytes: b },
                ]);
                assert(all =~= pieces_of(lines@));
                break ;
            },
        }
    }
    lines
}

} // verus!
