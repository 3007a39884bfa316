//! Removing lines and writing them again: what the two rewrites of a file do
//! to its lines, taken together.

use crate::fileio::{
    classified, insertion_offset, is_gone, kept_lines, lemma_remove_keeps_lines, lemma_tops_range,
    line_feed, lines_for, new_lines, present, rendered, segments, skipped, tops, with_includes,
    without_lines, written, LineView, Statement,
};
use crate::text::{first_of, lemma_first_of, lemma_first_of_at, lines_of, pieces, Piece, LINE_FEED};
use vstd::prelude::*;
use vstd::seq_lib::lemma_multiset_commutative;
use vstd::utf8::*;

verus! {

/// The lines whose numbers are in `gone`, where the first of `lines` has the
/// number `number`.
pub open spec fn gone_lines(lines: Seq<Seq<u8>>, gone: Seq<usize>, number: nat) -> Seq<Seq<u8>>
    decreases lines.len(),
{
    if lines.len() == 0 {
        Seq::empty()
    } else if is_gone(gone, number) {
        seq![lines[0]] + gone_lines(lines.drop_first(), gone, number + 1)
    } else {
        gone_lines(lines.drop_first(), gone, number + 1)
    }
}

/// The bytes of each statement as it is written, without its line feed.
pub open spec fn statement_lines(statements: Seq<Statement>) -> Seq<Seq<u8>> {
    statements.map_values(|statement: Statement| encode_utf8(rendered(statement)))
}

/// Whether a line starts at `at`: at the start of the bytes, or behind a line
/// feed.
pub open spec fn is_line_start(bytes: Seq<u8>, at: int) -> bool {
    0 <= at <= bytes.len() && (at == 0 || bytes[at - 1] == LINE_FEED)
}

/// The bytes of a text that is made of two are the bytes of the two.
pub proof fn lemma_encode_concat(x: Seq<char>, y: Seq<char>)
    ensures
        encode_utf8(x + y) == encode_utf8(x) + encode_utf8(y),
    decreases x.len(),
{
    if x.len() == 0 {
        assert(x + y =~= y);
        assert(encode_utf8(x) + encode_utf8(y) =~= encode_utf8(y));
    } else {
        lemma_encode_concat(x.drop_first(), y);
        assert((x + y).drop_first() =~= x.drop_first() + y);
        assert((x + y)[0] == x[0]);
        assert(encode_utf8(x + y) =~= encode_utf8(x) + encode_utf8(y));
    }
}

/// The line feed is one byte.
pub proof fn lemma_encode_line_feed()
    ensures
        encode_utf8(line_feed()) == seq![LINE_FEED],
{
    let lf = line_feed();
    assert(lf[0] as u32 == 10u32);
    assert((10u32 & 0x7F) == 10u32) by (bit_vector);
    assert(lf.drop_first() =~= Seq::<char>::empty());
    assert(encode_utf8(lf.drop_first()) =~= Seq::<u8>::empty());
    assert(encode_scalar(10u32) =~= seq![LINE_FEED]);
    assert(encode_utf8(lf) =~= seq![LINE_FEED]);
}

/// Every piece of a text starts at the start of the text or behind a separator.
pub proof fn lemma_piece_starts(bytes: Seq<u8>, sep: u8, base: nat, i: int)
    requires
        0 <= i < pieces(bytes, sep, base).len(),
    ensures
        base <= pieces(bytes, sep, base)[i].start <= base + bytes.len(),
        pieces(bytes, sep, base)[i].start == base || bytes[pieces(bytes, sep, base)[i].start
            - base - 1] == sep,
    decreases bytes.len(),
{
    let k = first_of(bytes, sep);
    lemma_first_of(bytes, sep);
    if k < bytes.len() && i > 0 {
        let rest = bytes.skip(k as int + 1);
        let later = pieces(rest, sep, base + k + 1);
        assert(pieces(bytes, sep, base)[i] == later[i - 1]);
        lemma_piece_starts(rest, sep, base + k + 1, i - 1);
        let s = later[i - 1].start;
        if s != base + k + 1 {
            assert(rest[s - (base + k + 1) - 1] == bytes[s - base - 1]);
        }
    }
}

/// New directives go to the start of a line.
pub proof fn lemma_offset_is_line_start(bytes: Seq<u8>, local_only: bool, is_header: bool)
    ensures
        is_line_start(
            bytes,
            insertion_offset(classified(lines_of(bytes), local_only), is_header) as int,
        ),
{
    let lines = classified(lines_of(bytes), local_only);
    let t = tops(lines, lines.len() as int, is_header);
    lemma_tops_range(lines, lines.len() as int, is_header);
    if t.len() > skipped(is_header) {
        let at = t[skipped(is_header) as int];
        assert(lines[at].start == lines_of(bytes)[at].start);
        lemma_piece_starts(bytes, LINE_FEED, 0, at);
    }
}

/// The start of a line of a text is a boundary between two of its characters.
pub proof fn lemma_line_start_boundary(bytes: Seq<u8>, at: int)
    requires
        valid_utf8(bytes),
        is_line_start(bytes, at),
    ensures
        is_char_boundary(bytes, at),
{
    is_char_boundary_start_end_of_seq(bytes);
    if 0 < at < bytes.len() {
        is_char_boundary_iff_not_is_continuation_byte(bytes, at - 1);
        valid_utf8_split(bytes, at - 1);
        let tail = bytes.skip(at - 1);
        assert(tail =~= bytes.subrange(at - 1, bytes.len() as int));
        assert(tail[0] == LINE_FEED);
        reveal_with_fuel(valid_utf8, 2);
        let rest = pop_first_scalar(tail);
        assert(rest =~= bytes.skip(at));
        assert(valid_utf8(rest));
        assert(rest[0] == bytes[at]);
        assert(!is_continuation_byte(rest[0]));
        is_char_boundary_iff_not_is_continuation_byte(bytes, at);
    }
}

/// The lines of two texts of which the first ends with its last line are the
/// lines of the first and the lines of the second.
pub proof fn lemma_segments_concat(x: Seq<u8>, y: Seq<u8>)
    requires
        x.len() == 0 || x.last() == LINE_FEED,
    ensures
        segments(x + y) == segments(x) + segments(y),
    decreases x.len(),
{
    if x.len() == 0 {
        assert(x + y =~= y);
        assert(segments(x) + segments(y) =~= segments(y));
    } else {
        let k = first_of(x, LINE_FEED) as int;
        lemma_first_of(x, LINE_FEED);
        assert(k < x.len()) by {
            if k >= x.len() {
                assert(x[x.len() - 1] != LINE_FEED);
            }
        }
        let all = x + y;
        assert forall|i: int| 0 <= i < k implies all[i] != LINE_FEED by {
            assert(all[i] == x[i]);
        }
        assert(all[k] == x[k]);
        lemma_first_of_at(all, LINE_FEED, k);
        let rest = x.skip(k + 1);
        assert(all.skip(k + 1) =~= rest + y);
        assert(all.take(k) =~= x.take(k));
        if rest.len() > 0 {
            assert(rest.last() == x.last());
        }
        lemma_segments_concat(rest, y);
        assert(segments(all) =~= seq![x.take(k)] + (segments(rest) + segments(y)));
        assert(segments(x) =~= seq![x.take(k)] + segments(rest));
        assert(segments(all) =~= segments(x) + segments(y));
    }
}

/// No line holds a line feed.
pub proof fn lemma_segments_hold_no_line_feed(bytes: Seq<u8>, i: int)
    requires
        0 <= i < segments(bytes).len(),
    ensures
        !segments(bytes)[i].contains(LINE_FEED),
    decreases bytes.len(),
{
    if bytes.len() > 0 {
        let k = first_of(bytes, LINE_FEED) as int;
        lemma_first_of(bytes, LINE_FEED);
        if i == 0 {
            let line = segments(bytes)[0];
            assert(line =~= bytes.take(k));
            if line.contains(LINE_FEED) {
                let j = line.index_of(LINE_FEED);
                assert(bytes[j] == LINE_FEED);
            }
        } else {
            assert(segments(bytes)[i] == segments(bytes.skip(k + 1))[i - 1]);
            lemma_segments_hold_no_line_feed(bytes.skip(k + 1), i - 1);
        }
    }
}

/// A text that is one line with its line feed has this line as its only line.
pub proof fn lemma_segments_of_line(line: Seq<u8>)
    requires
        !line.contains(LINE_FEED),
    ensures
        segments(line.push(LINE_FEED)) == seq![line],
{
    let all = line.push(LINE_FEED);
    assert forall|i: int| 0 <= i < line.len() implies all[i] != LINE_FEED by {
        assert(line.contains(line[i]));
    }
    assert(all[line.len() as int] == LINE_FEED);
    lemma_first_of_at(all, LINE_FEED, line.len() as int);
    let k = first_of(all, LINE_FEED) as int;
    assert(k == line.len());
    assert(all.take(k) =~= line);
    let rest = all.skip(k + 1);
    assert(rest =~= Seq::<u8>::empty());
    assert(segments(rest) =~= Seq::<Seq<u8>>::empty());
    assert(segments(all) == seq![all.take(k)] + segments(rest));
    assert(segments(all) =~= seq![line]);
}

/// The statements as they are written have their lines as lines, where none of
/// their lines holds a line feed.
pub proof fn lemma_segments_of_statements(statements: Seq<Statement>)
    requires
        forall|i: int|
            0 <= i < statements.len() ==> !(#[trigger] statement_lines(statements)[i]).contains(
                LINE_FEED,
            ),
    ensures
        segments(encode_utf8(lines_for(statements))) == statement_lines(statements),
        encode_utf8(lines_for(statements)).len() == 0 || encode_utf8(lines_for(statements)).last()
            == LINE_FEED,
    decreases statements.len(),
{
    if statements.len() == 0 {
        assert(statement_lines(statements) =~= Seq::<Seq<u8>>::empty());
    } else {
        let rest = statements.drop_last();
        let last = statements.last();
        let line = encode_utf8(rendered(last));
        assert forall|i: int| 0 <= i < rest.len() implies !(#[trigger] statement_lines(
            rest,
        )[i]).contains(LINE_FEED) by {
            assert(statement_lines(rest)[i] == statement_lines(statements)[i]);
        }
        lemma_segments_of_statements(rest);
        lemma_encode_concat(lines_for(rest) + rendered(last), line_feed());
        lemma_encode_concat(lines_for(rest), rendered(last));
        lemma_encode_line_feed();
        let before = encode_utf8(lines_for(rest));
        let all = encode_utf8(lines_for(statements));
        assert(all =~= before + line.push(LINE_FEED));
        assert(statement_lines(statements)[statements.len() - 1] == line);
        lemma_segments_of_line(line);
        lemma_segments_concat(before, line.push(LINE_FEED));
        assert(statement_lines(statements) =~= statement_lines(rest).push(line));
        assert(all.last() == LINE_FEED);
    }
}

/// The lines of a file are those that stay and those that go.
pub proof fn lemma_kept_and_gone(lines: Seq<Seq<u8>>, gone: Seq<usize>, number: nat)
    ensures
        lines.to_multiset() == kept_lines(lines, gone, number).to_multiset().add(
            gone_lines(lines, gone, number).to_multiset(),
        ),
    decreases lines.len(),
{
    broadcast use vstd::seq_lib::group_to_multiset_ensures;

    if lines.len() == 0 {
        assert(kept_lines(lines, gone, number) =~= Seq::<Seq<u8>>::empty());
        assert(gone_lines(lines, gone, number) =~= Seq::<Seq<u8>>::empty());
        assert(lines.to_multiset() =~= kept_lines(lines, gone, number).to_multiset().add(
            gone_lines(lines, gone, number).to_multiset(),
        ));
    } else {
        let rest = lines.drop_first();
        lemma_kept_and_gone(rest, gone, number + 1);
        let first = seq![lines[0]];
        assert(lines =~= first + rest);
        lemma_multiset_commutative(first, rest);
        lemma_multiset_commutative(first, kept_lines(rest, gone, number + 1));
        lemma_multiset_commutative(first, gone_lines(rest, gone, number + 1));
        assert(lines.to_multiset() =~= kept_lines(lines, gone, number).to_multiset().add(
            gone_lines(lines, gone, number).to_multiset(),
        ));
    }
}

/// Removing lines and adding their directives again restores the file up to
/// the place of the directives. Where lines were removed from a file, and the
/// statements that are added then are, as they are written, the lines that were
/// removed, none of which is left out, the new file has the lines that stayed, in
/// their order, and in one place among them the lines that were removed: the
/// lines of the file as it was, in another order at most.
pub proof fn lemma_round_trip(
    original: Seq<u8>,
    gone: Seq<usize>,
    statements: Seq<Statement>,
    is_header: bool,
)
    requires
        valid_utf8(without_lines(original, gone, 1)),
        written(
            statements,
            present(classified(lines_of(without_lines(original, gone, 1)), false), is_header),
        ) == statements,
        statement_lines(statements) == gone_lines(segments(original), gone, 1),
    ensures
        ({
            let result = encode_utf8(
                with_includes(without_lines(original, gone, 1), statements, is_header),
            );
            let kept = kept_lines(segments(original), gone, 1);
            let back = gone_lines(segments(original), gone, 1);
            &&& exists|at: int|
                0 <= at <= kept.len() && segments(result) == kept.take(at) + back + kept.skip(at)
            &&& segments(result).to_multiset() == segments(original).to_multiset()
        }),
{
    broadcast use vstd::seq_lib::group_to_multiset_ensures;

    let left = without_lines(original, gone, 1);
    let lines = classified(lines_of(left), false);
    let offset = insertion_offset(lines, is_header) as int;
    let kept = kept_lines(segments(original), gone, 1);
    let back = gone_lines(segments(original), gone, 1);
    let result = encode_utf8(with_includes(left, statements, is_header));
    lemma_remove_keeps_lines(original, gone, 1);
    lemma_offset_is_line_start(left, false, is_header);
    lemma_line_start_boundary(left, offset);
    let head = left.take(offset);
    let tail = left.skip(offset);
    assert(head =~= left.subrange(0, offset));
    assert(tail =~= left.subrange(offset, left.len() as int));
    valid_utf8_split(left, offset);
    decode_utf8_encode_utf8(head);
    decode_utf8_encode_utf8(tail);
    let added = encode_utf8(lines_for(statements));
    assert(new_lines(statements, present(lines, is_header)) == lines_for(statements));
    lemma_encode_concat(decode_utf8(head) + lines_for(statements), decode_utf8(tail));
    lemma_encode_concat(decode_utf8(head), lines_for(statements));
    assert(result == head + added + tail);

    assert forall|i: int| 0 <= i < statements.len() implies !(#[trigger] statement_lines(
        statements,
    )[i]).contains(LINE_FEED) by {
        lemma_gone_are_lines(segments(original), gone, 1, i);
        let k = choose|k: int|
            0 <= k < segments(original).len() && segments(original)[k] == back[i];
        lemma_segments_hold_no_line_feed(original, k);
    }
    lemma_segments_of_statements(statements);
    assert(head.len() == 0 || head.last() == LINE_FEED) by {
        if head.len() > 0 {
            assert(head.last() == left[offset - 1]);
        }
    }
    assert(head + tail =~= left);
    lemma_segments_concat(head, tail);
    lemma_segments_concat(head, added + tail);
    lemma_segments_concat(added, tail);
    assert(head + added + tail =~= head + (added + tail));
    let first = segments(head);
    let second = segments(tail);
    assert(kept == first + second);
    assert(segments(result) == first + (back + second));
    let at = first.len() as int;
    assert(kept.take(at) =~= first);
    assert(kept.skip(at) =~= second);
    assert(segments(result) =~= kept.take(at) + back + kept.skip(at));

    lemma_kept_and_gone(segments(original), gone, 1);
    lemma_multiset_commutative(first, back + second);
    lemma_multiset_commutative(back, second);
    lemma_multiset_commutative(first, second);
    assert(segments(result).to_multiset() =~= segments(original).to_multiset());
}

/// Every line that goes is a line of the file.
pub proof fn lemma_gone_are_lines(lines: Seq<Seq<u8>>, gone: Seq<usize>, number: nat, i: int)
    requires
        0 <= i < gone_lines(lines, gone, number).len(),
    ensures
        exists|k: int| 0 <= k < lines.len() && lines[k] == gone_lines(lines, gone, number)[i],
    decreases lines.len(),
{
    if lines.len() > 0 {
        let rest = lines.drop_first();
        if is_gone(gone, number) {
            if i == 0 {
                assert(lines[0] == gone_lines(lines, gone, number)[0]);
            } else {
                lemma_gone_are_lines(rest, gone, number + 1, i - 1);
                let k = choose|k: int|
                    0 <= k < rest.len() && rest[k] == gone_lines(rest, gone, number + 1)[i - 1];
                assert(lines[k + 1] == rest[k]);
                assert(gone_lines(lines, gone, number)[i] == gone_lines(rest, gone, number + 1)[i
                    - 1]);
            }
        } else {
            lemma_gone_are_lines(rest, gone, number + 1, i);
            let k = choose|k: int|
                0 <= k < rest.len() && rest[k] == gone_lines(rest, gone, number + 1)[i];
            assert(lines[k + 1] == rest[k]);
        }
    }
}

} // verus!
