//! What the formatter is asked to sort: the blocks of directives of a file.

use crate::text::{lemma_decoded, lines_of, pieces_of, split_lines, texts, Piece};
use vstd::prelude::*;
use vstd::string::*;
use vstd::utf8::*;

verus! {

/// What a line is to the formatter.
#[derive(Debug, Clone, Copy)]
pub enum Part {
    /// A directive of the preprocessor.
    Directive,
    /// A blank line or a comment, which ends no block.
    Neutral,
    /// Any other line: it ends the block before it.
    Code,
}

/// Whether the character is white space: one of the characters to which
/// Unicode gives the property `White_Space`.
pub open spec fn is_white_space(c: char) -> bool {
    let n = c as u32;
    ||| 0x09 <= n <= 0x0D
    ||| n == 0x20
    ||| n == 0x85
    ||| n == 0xA0
    ||| n == 0x1680
    ||| 0x2000 <= n <= 0x200A
    ||| n == 0x2028
    ||| n == 0x2029
    ||| n == 0x202F
    ||| n == 0x205F
    ||| n == 0x3000
}

/// The number of white space characters at the start of the line.
pub open spec fn indent_of(line: Seq<char>) -> nat
    decreases line.len(),
{
    if line.len() == 0 || !is_white_space(line[0]) {
        0
    } else {
        1 + indent_of(line.drop_first())
    }
}

/// What the line is to the formatter, by what stands behind the white space at
/// its start: a `#` makes it a directive; nothing, or `//`, makes it neutral;
/// anything else makes it code.
pub open spec fn part_of(line: Seq<char>) -> Part {
    let rest = line.skip(indent_of(line) as int);
    if rest.len() > 0 && rest[0] == '#' {
        Part::Directive
    } else if rest.len() == 0 || (rest.len() >= 2 && rest[0] == '/' && rest[1] == '/') {
        Part::Neutral
    } else {
        Part::Code
    }
}

/// What each line of a text is to the formatter.
pub open spec fn parts_of(pieces: Seq<Piece>) -> Seq<Part> {
    pieces.map_values(|piece: Piece| part_of(decode_utf8(piece.bytes)))
}

/// The state of the walk over the lines.
pub struct Blocks {
    /// The line behind the last line of code.
    pub start: nat,
    /// Whether a directive was met since.
    pub has_directive: bool,
    /// The blocks that were closed: the first and the last line of each, counted
    /// from 0.
    pub ranges: Seq<(nat, nat)>,
}

/// The walk over the first `n` lines: a line of code closes the block of the
/// lines before it, which counts where it holds a directive and more than one
/// line.
pub open spec fn blocks(parts: Seq<Part>, n: int) -> Blocks
    decreases n,
{
    if n <= 0 {
        Blocks { start: 0, has_directive: false, ranges: Seq::empty() }
    } else {
        let before = blocks(parts, n - 1);
        match parts[n - 1] {
            Part::Directive => Blocks { has_directive: true, ..before },
            Part::Neutral => before,
            Part::Code => Blocks {
                start: n as nat,
                has_directive: false,
                ranges: if before.has_directive && before.start + 2 < n {
                    before.ranges.push((before.start, (n - 2) as nat))
                } else {
                    before.ranges
                },
            },
        }
    }
}

/// The blocks of directives of a file: the runs of directives, blank lines and
/// comments that a line of code ends, where they hold a directive and more than
/// one line.
pub open spec fn block_ranges(parts: Seq<Part>) -> Seq<(nat, nat)> {
    blocks(parts, parts.len() as int).ranges
}

/// The ranges as numbers.
pub open spec fn ranges_of(list: Seq<(usize, usize)>) -> Seq<(nat, nat)> {
    list.map_values(|r: (usize, usize)| (r.0 as nat, r.1 as nat))
}

/// Whether the character is white space.
pub fn is_white(c: char) -> (r: bool)
    ensures
        r == is_white_space(c),
{
    let n = c as u32;
    (0x09 <= n && n <= 0x0D) || n == 0x20 || n == 0x85 || n == 0xA0 || n == 0x1680 || (0x2000 <= n
        && n <= 0x200A) || n == 0x2028 || n == 0x2029 || n == 0x202F || n == 0x205F || n == 0x3000
}

/// What the line is to the formatter.
pub fn classify_part(line: &str) -> (part: Part)
    ensures
        part == part_of(line@),
{
    let n = line.unicode_len();
    let mut i: usize = 0;
    assert(line@.skip(0) =~= line@);
    while i < n && is_white(line.get_char(i))
        invariant
            i <= n,
            n == line@.len(),
            indent_of(line@) == i + indent_of(line@.skip(i as int)),
        decreases n - i,
    {
        proof {
            let rest = line@.skip(i as int);
            assert(rest[0] == line@[i as int]);
            assert(rest.drop_first() =~= line@.skip(i + 1));
        }
        i += 1;
    }
    proof {
        let rest = line@.skip(i as int);
        if i < n {
            assert(rest[0] == line@[i as int]);
            if i + 1 < n {
                assert(rest[1] == line@[i + 1]);
            }
        }
    }
    if i >= n {
        return Part::Neutral;
    }
    let first = line.get_char(i);
    if first == '#' {
        Part::Directive
    } else if first == '/' && i + 1 < n && line.get_char(i + 1) == '/' {
        Part::Neutral
    } else {
        Part::Code
    }
}

/// The blocks of directives among the lines.
pub fn find_blocks(parts: &Vec<Part>) -> (ranges: Vec<(usize, usize)>)
    ensures
        ranges_of(ranges@) == block_ranges(parts@),
{
    let mut ranges: Vec<(usize, usize)> = Vec::new();
    let mut start: usize = 0;
    let mut has_directive = false;
    let mut i: usize = 0;
    assert(ranges_of(ranges@) =~= Seq::<(nat, nat)>::empty());
    while i < parts.len()
        invariant
            i <= parts.len(),
            start <= i,
            blocks(parts@, i as int) == (Blocks {
                start: start as nat,
                has_directive,
                ranges: ranges_of(ranges@),
            }),
        decreases parts.len() - i,
    {
        match parts[i] {
            Part::Directive => {
                has_directive = true;
            },
            Part::Neutral => {},
            Part::Code => {
                if has_directive && start + 1 < i {
                    let ghost before = ranges@;
                    ranges.push((start, i - 1));
                    assert(ranges_of(ranges@) =~= ranges_of(before).push(
                        (start as nat, (i - 1) as nat),
                    ));
                }
                start = i + 1;
                has_directive = false;
            },
        }
        i += 1;
    }
    ranges
}

/// The blocks of directives of the text of a file, by their first and last line,
/// counted from 0.
pub fn include_ranges(text: &str) -> (ranges: Vec<(usize, usize)>)
    ensures
        ranges_of(ranges@) == block_ranges(parts_of(lines_of(text.spec_bytes()))),
{
    let cut = split_lines(text);
    let mut parts: Vec<Part> = Vec::new();
    let mut i: usize = 0;
    while i < cut.len()
        invariant
            i <= cut.len(),
            parts@.len() == i,
            forall|j: int|
                0 <= j < i ==> #[trigger] parts@[j] == part_of(decode_utf8(cut@[j].1.spec_bytes())),
        decreases cut.len() - i,
    {
        proof {
            lemma_decoded(cut[i as int].1);
        }
        parts.push(classify_part(cut[i].1));
        i += 1;
    }
    assert(parts@ =~= parts_of(pieces_of(cut@)));
    find_blocks(&parts)
}

/// The digit `d` as text.
pub open spec fn digit(d: nat) -> Seq<char> {
    if d == 0 {
        "0"@
    } else if d == 1 {
        "1"@
    } else if d == 2 {
        "2"@
    } else if d == 3 {
        "3"@
    } else if d == 4 {
        "4"@
    } else if d == 5 {
        "5"@
    } else if d == 6 {
        "6"@
    } else if d == 7 {
        "7"@
    } else if d == 8 {
        "8"@
    } else {
        "9"@
    }
}

/// The number `n` in decimal digits.
pub open spec fn decimal(n: nat) -> Seq<char>
    decreases n,
{
    if n < 10 {
        digit(n)
    } else {
        decimal(n / 10) + digit(n % 10)
    }
}

/// The digit `d` as text.
pub fn digit_text(d: u8) -> (r: &'static str)
    requires
        d < 10,
    ensures
        r@ == digit(d as nat),
{
    if d == 0 {
        "0"
    } else if d == 1 {
        "1"
    } else if d == 2 {
        "2"
    } else if d == 3 {
        "3"
    } else if d == 4 {
        "4"
    } else if d == 5 {
        "5"
    } else if d == 6 {
        "6"
    } else if d == 7 {
        "7"
    } else if d == 8 {
        "8"
    } else {
        "9"
    }
}

/// The number `n` in decimal digits.
pub fn decimal_text(n: u128) -> (r: String)
    ensures
        r@ == decimal(n as nat),
    decreases n,
{
    if n < 10 {
        digit_text(n as u8).to_owned()
    } else {
        let mut r = decimal_text(n / 10);
        r.append(digit_text((n % 10) as u8));
        r
    }
}

/// The argument that names one block to the formatter: its lines, counted from 1.
pub open spec fn lines_argument(range: (nat, nat)) -> Seq<char> {
    "-lines="@ + decimal(range.0 + 1) + ":"@ + decimal(range.1 + 1)
}

/// The arguments with which the formatter is called on `file`: the file, the
/// flags that make it sort the directives in place, and one argument for each
/// block.
pub open spec fn formatter_arguments(file: Seq<char>, ranges: Seq<(nat, nat)>) -> Seq<Seq<char>> {
    seq![file, "-i"@, "-sort-includes"@] + ranges.map_values(|r: (nat, nat)| lines_argument(r))
}

/// The arguments with which the formatter is called on `file`.
pub fn includes(file: &str, ranges: &Vec<(usize, usize)>) -> (arguments: Vec<String>)
    ensures
        texts(arguments@) == formatter_arguments(file@, ranges_of(ranges@)),
{
    let mut arguments: Vec<String> = Vec::new();
    arguments.push(file.to_owned());
    arguments.push("-i".to_owned());
    arguments.push("-sort-includes".to_owned());
    let ghost head = seq![file@, "-i"@, "-sort-includes"@];
    let ghost tail = ranges_of(ranges@).map_values(|r: (nat, nat)| lines_argument(r));
    assert(texts(arguments@) =~= head);
    let mut i: usize = 0;
    while i < ranges.len()
        invariant
            i <= ranges.len(),
            tail == ranges_of(ranges@).map_values(|r: (nat, nat)| lines_argument(r)),
            texts(arguments@) == head + tail.take(i as int),
        decreases ranges.len() - i,
    {
        let first: u128 = ranges[i].0 as u128 + 1;
        let last: u128 = ranges[i].1 as u128 + 1;
        let mut argument = "-lines=".to_owned();
        argument.append(decimal_text(first).as_str());
        argument.append(":");
        argument.append(decimal_text(last).as_str());
        let ghost before = arguments@;
        assert(argument@ == tail[i as int]);
        arguments.push(argument);
        assert(texts(arguments@) =~= texts(before).push(tail[i as int]));
        assert(tail.take(i + 1) =~= tail.take(i as int).push(tail[i as int]));
        i += 1;
    }
    assert(tail.take(i as int) =~= tail);
    arguments
}

} // verus!
