//! Directives as they stand in the text of a file: finding them, removing
//! them by line, and inserting new ones in front of the first.

use crate::pattern::{first_capture, is_match, pattern_matches, regex_capture};
use crate::text::{
    distinct, first_of, holds, lemma_decoded, lemma_first_of, lemma_first_of_at, lines_of,
    pieces_of, push_distinct, split_lines, texts, Piece, LINE_FEED,
};
use vstd::prelude::*;
use vstd::string::*;
use vstd::utf8::*;

verus! {

/// A directive that names a file in quotes or in angle brackets.
pub const RE_INCLUDE: &'static str = "^[ \\t]*#[ \\t]*include[ \\t]*[<\"]([\\./\\w-]+)[>\"]";

/// A directive that names a file in quotes.
pub const RE_LOCAL_INCLUDE: &'static str = "^[ \\t]*#[ \\t]*include[ \\t]*\"([\\./\\w-]+)\"";

/// The start of a conditional block.
pub const RE_IF: &'static str = "^[ \\t]*#[ \\t]*if";

/// The end of a conditional block.
pub const RE_ENDIF: &'static str = "^[ \\t]*#[ \\t]*endif";

/// The directive that stands for a header guard.
pub const RE_PRAGMA_ONCE: &'static str = "^[ \\t]*#[ \\t]*pragma[ \\t]+once";

/// A directive to write into a file.
#[derive(Debug)]
pub enum IncludeStatement {
    /// A file named relative to the one that names it, written in quotes.
    Local(String),
    /// A file found on the search path, written in angle brackets.
    Global(String),
}

/// What an [`IncludeStatement`] stands for.
pub enum Statement {
    /// A file written in quotes.
    Local(Seq<char>),
    /// A file written in angle brackets.
    Global(Seq<char>),
}

impl View for IncludeStatement {
    type V = Statement;

    open spec fn view(&self) -> Statement {
        match self {
            IncludeStatement::Local(path) => Statement::Local(path@),
            IncludeStatement::Global(path) => Statement::Global(path@),
        }
    }
}

/// The file that a statement names.
pub open spec fn payload(statement: Statement) -> Seq<char> {
    match statement {
        Statement::Local(path) => path,
        Statement::Global(path) => path,
    }
}

/// The line that a statement is written as, without its line feed.
pub open spec fn rendered(statement: Statement) -> Seq<char> {
    match statement {
        Statement::Local(path) => "#include \""@ + path + "\""@,
        Statement::Global(path) => "#include <"@ + path + ">"@,
    }
}

impl IncludeStatement {
    /// The file that the statement names.
    pub fn path(&self) -> (path: &str)
        ensures
            path@ == payload(self@),
    {
        match self {
            IncludeStatement::Local(path) => path.as_str(),
            IncludeStatement::Global(path) => path.as_str(),
        }
    }

    /// The directive as it is written: the file in quotes or in angle brackets.
    pub fn render(&self) -> (line: String)
        ensures
            line@ == rendered(self@),
    {
        match self {
            IncludeStatement::Local(path) => {
                let mut line = "#include \"".to_owned();
                line.append(path.as_str());
                line.append("\"");
                line
            },
            IncludeStatement::Global(path) => {
                let mut line = "#include <".to_owned();
                line.append(path.as_str());
                line.append(">");
                line
            },
        }
    }
}

/// What a line is to the scan.
#[derive(Debug)]
pub enum LineKind {
    /// The line opens a conditional block or is the guard `#pragma once`.
    Open,
    /// The line closes a conditional block.
    Close,
    /// The line is a directive that names this file.
    Directive(String),
    /// Any other line.
    Other,
}

/// What a [`LineKind`] stands for.
pub enum Kind {
    /// The line opens a block.
    Open,
    /// The line closes a block.
    Close,
    /// The line is a directive that names this file.
    Directive(Seq<char>),
    /// Any other line.
    Other,
}

impl View for LineKind {
    type V = Kind;

    open spec fn view(&self) -> Kind {
        match self {
            LineKind::Open => Kind::Open,
            LineKind::Close => Kind::Close,
            LineKind::Directive(path) => Kind::Directive(path@),
            LineKind::Other => Kind::Other,
        }
    }
}

/// A line of a file: what it is, and the number of bytes before it.
#[derive(Debug)]
pub struct Line {
    /// What the line is.
    pub kind: LineKind,
    /// The number of bytes before the line.
    pub start: usize,
}

/// What a [`Line`] stands for.
pub struct LineView {
    /// What the line is.
    pub kind: Kind,
    /// The number of bytes before the line.
    pub start: nat,
}

impl View for Line {
    type V = LineView;

    open spec fn view(&self) -> LineView {
        LineView { kind: self.kind@, start: self.start as nat }
    }
}

/// What each line stands for.
pub open spec fn views(lines: Seq<Line>) -> Seq<LineView> {
    lines.map_values(|line: Line| line@)
}

/// What the line `line` is: the guard and the start of a block come first, then
/// the end of a block, then the directive, of which only those in quotes count
/// where `local_only` is set.
pub open spec fn line_kind(line: Seq<char>, local_only: bool) -> Kind {
    if pattern_matches(RE_PRAGMA_ONCE@, line) || pattern_matches(RE_IF@, line) {
        Kind::Open
    } else if pattern_matches(RE_ENDIF@, line) {
        Kind::Close
    } else {
        match regex_capture(
            if local_only {
                RE_LOCAL_INCLUDE@
            } else {
                RE_INCLUDE@
            },
            line,
            1,
        ) {
            Some(path) => Kind::Directive(path),
            None => Kind::Other,
        }
    }
}

/// The pieces of a text as lines.
pub open spec fn classified(pieces: Seq<Piece>, local_only: bool) -> Seq<LineView> {
    pieces.map_values(
        |piece: Piece|
            LineView { kind: line_kind(decode_utf8(piece.bytes), local_only), start: piece.start },
    )
}

/// The depth at which a file starts: a header starts one level up, so that what
/// stands inside its guard is at depth 0.
pub open spec fn initial_depth(is_header: bool) -> int {
    if is_header {
        -1
    } else {
        0
    }
}

/// The number of blocks that are open before line `i`.
pub open spec fn depth_before(lines: Seq<LineView>, i: int, is_header: bool) -> int
    decreases i,
{
    if i <= 0 {
        initial_depth(is_header)
    } else {
        depth_before(lines, i - 1, is_header) + match lines[i - 1].kind {
            Kind::Open => 1int,
            Kind::Close => -1int,
            _ => 0int,
        }
    }
}

/// Whether line `i` is a directive outside every block.
pub open spec fn is_top(lines: Seq<LineView>, i: int, is_header: bool) -> bool {
    &&& 0 <= i < lines.len()
    &&& lines[i].kind is Directive
    &&& depth_before(lines, i, is_header) == 0
}

/// The directives outside every block among the first `n` lines, by their line.
pub open spec fn tops(lines: Seq<LineView>, n: int, is_header: bool) -> Seq<int>
    decreases n,
{
    if n <= 0 {
        Seq::empty()
    } else if is_top(lines, n - 1, is_header) {
        tops(lines, n - 1, is_header).push(n - 1)
    } else {
        tops(lines, n - 1, is_header)
    }
}

/// The files that the directives outside every block name, among the first `n`
/// lines.
pub open spec fn payloads(lines: Seq<LineView>, n: int, is_header: bool) -> Seq<Seq<char>>
    decreases n,
{
    if n <= 0 {
        Seq::empty()
    } else if is_top(lines, n - 1, is_header) {
        payloads(lines, n - 1, is_header).push(lines[n - 1].kind->Directive_0)
    } else {
        payloads(lines, n - 1, is_header)
    }
}

/// The number of directives that stay in front: in a source file the first, which
/// names the header of the file itself.
pub open spec fn skipped(is_header: bool) -> nat {
    if is_header {
        0
    } else {
        1
    }
}

/// Where new directives go: the start of the first directive outside every block
/// that does not stay in front, or 0 where there is none.
pub open spec fn insertion_offset(lines: Seq<LineView>, is_header: bool) -> nat {
    let t = tops(lines, lines.len() as int, is_header);
    if t.len() > skipped(is_header) {
        lines[t[skipped(is_header) as int]].start
    } else {
        0
    }
}

/// The files that the directives outside every block name, each once.
pub open spec fn present(lines: Seq<LineView>, is_header: bool) -> Seq<Seq<char>> {
    distinct(payloads(lines, lines.len() as int, is_header))
}

/// What the line is to the scan.
pub fn classify_line(line: &str, local_only: bool) -> (kind: LineKind)
    ensures
        kind@ == line_kind(line@, local_only),
{
    if is_match(RE_PRAGMA_ONCE, line) || is_match(RE_IF, line) {
        LineKind::Open
    } else if is_match(RE_ENDIF, line) {
        LineKind::Close
    } else {
        let found = if local_only {
            first_capture(RE_LOCAL_INCLUDE, line, 1)
        } else {
            first_capture(RE_INCLUDE, line, 1)
        };
        match found {
            Some(path) => LineKind::Directive(path),
            None => LineKind::Other,
        }
    }
}

/// Walks the lines of a file and gives the offset at which new directives go,
/// and the files that its directives outside every block name.
pub fn scan_lines(lines: &Vec<Line>, is_header: bool) -> (r: (usize, Vec<String>))
    ensures
        r.0 == insertion_offset(views(lines@), is_header),
        texts(r.1@) == present(views(lines@), is_header),
{
    let ghost all = views(lines@);
    let mut depth: i128 = if is_header {
        -1
    } else {
        0
    };
    let mut skip_first = !is_header;
    let mut found = false;
    let mut offset: usize = 0;
    let mut files: Vec<String> = Vec::new();
    let mut i: usize = 0;
    assert(texts(files@) =~= Seq::<Seq<char>>::empty());
    while i < lines.len()
        invariant
            i <= lines.len(),
            all == views(lines@),
            depth == depth_before(all, i as int, is_header),
            -1 - i <= depth <= i,
            texts(files@) == distinct(payloads(all, i as int, is_header)),
            skip_first == (!is_header && tops(all, i as int, is_header).len() == 0),
            found == (tops(all, i as int, is_header).len() > skipped(is_header)),
            found ==> offset == all[tops(all, i as int, is_header)[skipped(is_header) as int]].start,
            !found ==> offset == 0,
            forall|k: int|
                0 <= k < tops(all, i as int, is_header).len() ==> 0 <= #[trigger] tops(
                    all,
                    i as int,
                    is_header,
                )[k] < i,
        decreases lines.len() - i,
    {
        let ghost before = tops(all, i as int, is_header);
        assert(all[i as int] == lines@[i as int]@);
        match &lines[i].kind {
            LineKind::Open => {
                depth = depth + 1;
            },
            LineKind::Close => {
                depth = depth - 1;
            },
            LineKind::Directive(path) => {
                if depth == 0 {
                    assert(is_top(all, i as int, is_header));
                    if skip_first {
                        skip_first = false;
                    } else if !found {
                        found = true;
                        offset = lines[i].start;
                    }
                    proof {
                        let seen = payloads(all, i as int, is_header);
                        assert(seen.push(path@).drop_last() =~= seen);
                    }
                    push_distinct(&mut files, path.clone());
                }
            },
            LineKind::Other => {},
        }
        i += 1;
    }
    (offset, files)
}

/// Every directive that `tops` lists stands among the first `n` lines.
pub proof fn lemma_tops_range(lines: Seq<LineView>, n: int, is_header: bool)
    requires
        n <= lines.len(),
    ensures
        forall|k: int|
            0 <= k < tops(lines, n, is_header).len() ==> 0 <= #[trigger] tops(lines, n, is_header)[k]
                < n,
    decreases n,
{
    if n > 0 {
        lemma_tops_range(lines, n - 1, is_header);
        let before = tops(lines, n - 1, is_header);
        let now = tops(lines, n, is_header);
        assert forall|k: int| 0 <= k < now.len() implies 0 <= #[trigger] now[k] < n by {
            if k < before.len() {
                assert(now[k] == before[k]);
            }
        }
    }
}

/// Walks the text of a file line by line and gives the offset at which new
/// directives go, and the files that its directives outside every block name. The
/// offset is the start of a line of `text`, or 0.
pub fn parse_includes_file(text: &str, local_only: bool, is_header: bool) -> (r: (
    usize,
    Vec<String>,
))
    ensures
        r.0 == insertion_offset(classified(lines_of(text.spec_bytes()), local_only), is_header),
        texts(r.1@) == present(classified(lines_of(text.spec_bytes()), local_only), is_header),
        r.0 <= text.spec_bytes().len(),
        is_char_boundary(text.spec_bytes(), r.0 as int),
{
    let cut = split_lines(text);
    let mut lines: Vec<Line> = Vec::new();
    let mut i: usize = 0;
    while i < cut.len()
        invariant
            i <= cut.len(),
            lines@.len() == i,
            forall|j: int|
                0 <= j < i ==> (#[trigger] lines@[j])@ == (LineView {
                    kind: line_kind(decode_utf8(cut@[j].1.spec_bytes()), local_only),
                    start: cut@[j].0 as nat,
                }),
        decreases cut.len() - i,
    {
        let kind = classify_line(cut[i].1, local_only);
        proof {
            lemma_decoded(cut[i as int].1);
        }
        lines.push(Line { kind, start: cut[i].0 });
        i += 1;
    }
    assert(views(lines@) =~= classified(pieces_of(cut@), local_only));
    let r = scan_lines(&lines, is_header);
    proof {
        let all = views(lines@);
        let t = tops(all, all.len() as int, is_header);
        lemma_tops_range(all, all.len() as int, is_header);
        lemma_decoded(text);
        is_char_boundary_start_end_of_seq(text.spec_bytes());
        if t.len() > skipped(is_header) {
            let at = t[skipped(is_header) as int];
            assert(all[at].start == cut@[at].0);
        }
    }
    r
}

/// The files that the directives in quotes outside every block of `text` name,
/// each once, in the order in which they first stand.
pub fn parse_includes(text: &str, is_header: bool) -> (files: Vec<String>)
    ensures
        texts(files@) == present(classified(lines_of(text.spec_bytes()), true), is_header),
{
    parse_includes_file(text, true, is_header).1
}

/// The line feed as text.
pub open spec fn line_feed() -> Seq<char> {
    seq!['\n']
}

/// What each statement stands for.
pub open spec fn statements_of(list: Seq<IncludeStatement>) -> Seq<Statement> {
    list.map_values(|statement: IncludeStatement| statement@)
}

/// The file that each statement names.
pub open spec fn payloads_of(statements: Seq<Statement>) -> Seq<Seq<char>> {
    statements.map_values(|statement: Statement| payload(statement))
}

/// The statements that are written: those whose file is not among `old`, the
/// files that the text names already, and that no earlier statement names.
pub open spec fn written(statements: Seq<Statement>, old: Seq<Seq<char>>) -> Seq<Statement>
    decreases statements.len(),
{
    if statements.len() == 0 {
        Seq::empty()
    } else {
        let before = written(statements.drop_last(), old);
        let file = payload(statements.last());
        if old.contains(file) || payloads_of(statements.drop_last()).contains(file) {
            before
        } else {
            before.push(statements.last())
        }
    }
}

/// The statements as lines, each with its line feed.
pub open spec fn lines_for(statements: Seq<Statement>) -> Seq<char>
    decreases statements.len(),
{
    if statements.len() == 0 {
        Seq::empty()
    } else {
        lines_for(statements.drop_last()) + rendered(statements.last()) + line_feed()
    }
}

/// The lines that are written for `statements`: one for each file that the text
/// does not name yet, in the order in which the statements first name it.
pub open spec fn new_lines(statements: Seq<Statement>, old: Seq<Seq<char>>) -> Seq<char> {
    lines_for(written(statements, old))
}

/// The text of a file after `statements` were added: what stood before the
/// insertion offset, the new lines, and what stood behind the offset.
pub open spec fn with_includes(bytes: Seq<u8>, statements: Seq<Statement>, is_header: bool) -> Seq<
    char,
> {
    let lines = classified(lines_of(bytes), false);
    let at = insertion_offset(lines, is_header) as int;
    decode_utf8(bytes.take(at)) + new_lines(statements, present(lines, is_header)) + decode_utf8(
        bytes.skip(at),
    )
}

/// Adds the given directives in front of the first directive of the file that
/// does not stay in front, each on a line of its own. A directive for a file that
/// a directive outside every block already names, or that an earlier one of the
/// given directives names, is left out: no file is named twice by what is
/// written. Nothing else of the text changes.
pub fn add_includes(text: &str, includes: &Vec<IncludeStatement>, is_header: bool) -> (out: String)
    ensures
        out@ == with_includes(text.spec_bytes(), statements_of(includes@), is_header),
{
    let (offset, old) = parse_includes_file(text, false, is_header);
    let (head, tail) = text.split_at(offset);
    proof {
        lemma_decoded(head);
        lemma_decoded(tail);
        reveal_strlit("\n");
        assert("\n"@ =~= line_feed());
    }
    let ghost statements = statements_of(includes@);
    let mut out = head.to_owned();
    let mut tried: Vec<String> = Vec::new();
    let mut i: usize = 0;
    assert(statements.take(0) =~= Seq::<Statement>::empty());
    assert(texts(tried@) =~= payloads_of(statements.take(0)));
    while i < includes.len()
        invariant
            i <= includes.len(),
            statements == statements_of(includes@),
            "\n"@ == line_feed(),
            texts(tried@) == payloads_of(statements.take(i as int)),
            out@ == head@ + lines_for(written(statements.take(i as int), texts(old@))),
        decreases includes.len() - i,
    {
        let ghost before = written(statements.take(i as int), texts(old@));
        let ghost sought = tried@;
        proof {
            let next = statements.take(i + 1);
            assert(next.drop_last() =~= statements.take(i as int));
            assert(next.last() == includes@[i as int]@);
            assert(before.push(next.last()).drop_last() =~= before);
        }
        let file = includes[i].path();
        if !holds(&old, file) && !holds(&tried, file) {
            let line = includes[i].render();
            out.append(line.as_str());
            out.append("\n");
            assert(out@ =~= head@ + (lines_for(before) + line@ + line_feed()));
        }
        tried.push(file.to_owned());
        proof {
            assert(texts(tried@) =~= texts(sought).push(file@));
            assert(payloads_of(statements.take(i + 1)) =~= payloads_of(
                statements.take(i as int),
            ).push(file@));
        }
        i += 1;
    }
    assert(statements.take(i as int) =~= statements);
    out.append(tail);
    out
}

/// Whether line `number` is among those to remove.
pub open spec fn is_gone(gone: Seq<usize>, number: nat) -> bool {
    exists|j: int| 0 <= j < gone.len() && #[trigger] gone[j] == number
}

/// The content of a file without the lines whose numbers are in `gone`, where
/// the first line of `bytes` has the number `number`. Every line that stays ends
/// in a line feed, the last one too.
pub open spec fn without_lines(bytes: Seq<u8>, gone: Seq<usize>, number: nat) -> Seq<u8>
    decreases bytes.len(),
{
    if bytes.len() == 0 {
        Seq::empty()
    } else {
        let k = first_of(bytes, LINE_FEED) as int;
        let line = if is_gone(gone, number) {
            Seq::empty()
        } else {
            bytes.take(k).push(LINE_FEED)
        };
        if k >= bytes.len() {
            line
        } else {
            line + without_lines(bytes.skip(k + 1), gone, number + 1)
        }
    }
}

/// Whether `number` is among `lines`.
pub fn has_number(lines: &Vec<usize>, number: usize) -> (r: bool)
    ensures
        r == is_gone(lines@, number as nat),
{
    let mut j: usize = 0;
    while j < lines.len()
        invariant
            j <= lines.len(),
            forall|m: int| 0 <= m < j ==> lines@[m] != number,
        decreases lines.len() - j,
    {
        if lines[j] == number {
            return true;
        }
        j += 1;
    }
    false
}

/// The content of a file without the lines at the given numbers, which count
/// from 1. The lines that stay keep their bytes and their order.
pub fn remove_includes(content: &Vec<u8>, includes: &Vec<usize>) -> (out: Vec<u8>)
    ensures
        out@ == without_lines(content@, includes@, 1),
{
    let n = content.len();
    let ghost whole = without_lines(content@, includes@, 1);
    let mut out: Vec<u8> = Vec::new();
    let mut i: usize = 0;
    let mut number: usize = 1;
    assert(content@.skip(0) =~= content@);
    while i < n
        invariant
            i <= n,
            n == content@.len(),
            i < n ==> number <= i + 1,
            whole == out@ + without_lines(content@.skip(i as int), includes@, number as nat),
        decreases n - i,
    {
        let ghost rest = content@.skip(i as int);
        let ghost done = out@;
        let keep = !has_number(includes, number);
        let mut j: usize = i;
        while j < n && content[j] != LINE_FEED
            invariant
                i <= j <= n,
                n == content@.len(),
                forall|m: int| i <= m < j ==> content@[m] != LINE_FEED,
                out@ == if keep {
                    done + content@.subrange(i as int, j as int)
                } else {
                    done
                },
            decreases n - j,
        {
            if keep {
                out.push(content[j]);
                assert(content@.subrange(i as int, j + 1) =~= content@.subrange(
                    i as int,
                    j as int,
                ).push(content@[j as int]));
            }
            j += 1;
        }
        if keep {
            out.push(LINE_FEED);
        }
        proof {
            let k = j - i;
            lemma_first_of_at(rest, LINE_FEED, k);
            assert(rest.take(k) =~= content@.subrange(i as int, j as int));
            let line = if keep {
                rest.take(k).push(LINE_FEED)
            } else {
                Seq::<u8>::empty()
            };
            assert(out@ =~= done + line);
            if j < n {
                let tail = without_lines(rest.skip(k + 1), includes@, (number + 1) as nat);
                assert(rest.skip(k + 1) =~= content@.skip(j + 1));
                assert(without_lines(rest, includes@, number as nat) == line + tail);
                assert(whole =~= out@ + tail);
                if j + 1 >= n {
                    assert(content@.skip(j + 1) =~= Seq::<u8>::empty());
                    assert(tail =~= Seq::<u8>::empty());
                }
            } else {
                assert(without_lines(rest, includes@, number as nat) == line);
                assert(whole =~= out@);
            }
        }
        if j < n {
            i = j + 1;
            if i < n {
                number = number + 1;
            } else {
                assert(content@.skip(i as int) =~= Seq::<u8>::empty());
            }
        } else {
            i = n;
            assert(content@.skip(i as int) =~= Seq::<u8>::empty());
        }
    }
    assert(content@.skip(i as int) =~= Seq::<u8>::empty());
    out
}

/// The lines of a file as they are read: what stands between the line feeds,
/// without an empty line behind the last line feed.
pub open spec fn segments(bytes: Seq<u8>) -> Seq<Seq<u8>>
    decreases bytes.len(),
{
    if bytes.len() == 0 {
        Seq::empty()
    } else {
        let k = first_of(bytes, LINE_FEED) as int;
        if k >= bytes.len() {
            seq![bytes]
        } else {
            seq![bytes.take(k)] + segments(bytes.skip(k + 1))
        }
    }
}

/// The lines without those whose numbers are in `gone`, where the first of
/// `lines` has the number `number`.
pub open spec fn kept_lines(lines: Seq<Seq<u8>>, gone: Seq<usize>, number: nat) -> Seq<Seq<u8>>
    decreases lines.len(),
{
    if lines.len() == 0 {
        Seq::empty()
    } else if is_gone(gone, number) {
        kept_lines(lines.drop_first(), gone, number + 1)
    } else {
        seq![lines[0]] + kept_lines(lines.drop_first(), gone, number + 1)
    }
}

/// What is left after lines were removed never has more lines than there were.
pub proof fn lemma_kept_lines(lines: Seq<Seq<u8>>, gone: Seq<usize>, number: nat)
    ensures
        kept_lines(lines, gone, number).len() <= lines.len(),
        gone.len() == 0 ==> kept_lines(lines, gone, number) == lines,
    decreases lines.len(),
{
    if lines.len() > 0 {
        lemma_kept_lines(lines.drop_first(), gone, number + 1);
        if gone.len() == 0 {
            assert(seq![lines[0]] + lines.drop_first() =~= lines);
        }
    }
}

/// Removing lines leaves the other lines as they were, in their order: the lines
/// of the new content are the lines of the old one without those that were
/// removed. So the new content has no more lines than the old one, and the same
/// lines where nothing was removed.
pub proof fn lemma_remove_keeps_lines(bytes: Seq<u8>, gone: Seq<usize>, number: nat)
    ensures
        segments(without_lines(bytes, gone, number)) == kept_lines(segments(bytes), gone, number),
        segments(without_lines(bytes, gone, number)).len() <= segments(bytes).len(),
        gone.len() == 0 ==> segments(without_lines(bytes, gone, number)) == segments(bytes),
    decreases bytes.len(),
{
    lemma_kept_lines(segments(bytes), gone, number);
    if bytes.len() > 0 {
        let k = first_of(bytes, LINE_FEED) as int;
        lemma_first_of(bytes, LINE_FEED);
        let line = bytes.take(k);
        let rest = if k >= bytes.len() {
            Seq::<u8>::empty()
        } else {
            bytes.skip(k + 1)
        };
        let tail = without_lines(rest, gone, number + 1);
        lemma_remove_keeps_lines(rest, gone, number + 1);
        let lines = segments(bytes);
        assert(lines =~= seq![line] + segments(rest)) by {
            if k >= bytes.len() {
                assert(line =~= bytes);
            }
        }
        assert(lines.drop_first() =~= segments(rest));
        assert(lines[0] == line);
        if is_gone(gone, number) {
            assert(without_lines(bytes, gone, number) =~= tail);
        } else {
            let out = line.push(LINE_FEED) + tail;
            assert(without_lines(bytes, gone, number) =~= out);
            assert forall|i: int| 0 <= i < line.len() implies out[i] != LINE_FEED by {
                assert(out[i] == bytes[i]);
            }
            assert(out[line.len() as int] == LINE_FEED);
            lemma_first_of_at(out, LINE_FEED, line.len() as int);
            assert(out.take(line.len() as int) =~= line);
            assert(out.skip(line.len() as int + 1) =~= tail);
            assert(segments(out) =~= seq![line] + segments(tail));
        }
    }
}

/// No file is named twice by what is written: no directive is written for a
/// file that the text names already, no two of the written directives name the
/// same file, and every file that a statement names and the text does not is
/// named by one of them.
pub proof fn lemma_new_lines(statements: Seq<Statement>, old: Seq<Seq<char>>)
    ensures
        payloads_of(written(statements, old)).no_duplicates(),
        forall|file: Seq<char>|
            #[trigger] payloads_of(written(statements, old)).contains(file) <==> payloads_of(
                statements,
            ).contains(file) && !old.contains(file),
        written(statements, old).len() <= statements.len(),
    decreases statements.len(),
{
    let all = payloads_of(statements);
    let now = payloads_of(written(statements, old));
    if statements.len() > 0 {
        let rest = statements.drop_last();
        let last = statements.last();
        let file = payload(last);
        lemma_new_lines(rest, old);
        let before = payloads_of(written(rest, old));
        assert(payloads_of(rest) =~= all.drop_last());
        assert(all.last() == file);
        let skipped = old.contains(file) || payloads_of(rest).contains(file);
        if !skipped {
            assert(now =~= before.push(file));
            assert forall|i: int, j: int|
                0 <= i < now.len() && 0 <= j < now.len() && i != j implies now[i] != now[j] by {
                if i < before.len() && j < before.len() {
                } else if i < before.len() {
                    assert(before.contains(before[i]));
                } else if j < before.len() {
                    assert(before.contains(before[j]));
                }
            }
        }
        let named = payloads_of(rest);
        assert forall|other: Seq<char>|
            #[trigger] now.contains(other) <==> all.contains(other) && !old.contains(other) by {
            assert(all.contains(other) <==> named.contains(other) || other == file) by {
                if all.contains(other) {
                    let k = all.index_of(other);
                    if k < rest.len() {
                        assert(named[k] == other);
                    }
                }
                if named.contains(other) {
                    let k = named.index_of(other);
                    assert(all[k] == other);
                }
                if other == file {
                    assert(all[all.len() - 1] == file);
                }
            }
            assert(before.contains(other) <==> named.contains(other) && !old.contains(other));
            if skipped {
                assert(written(statements, old) == written(rest, old));
                assert(now == before);
            } else {
                assert(now.contains(other) <==> before.contains(other) || other == file) by {
                    if before.contains(other) {
                        let k = before.index_of(other);
                        assert(now[k] == other);
                    }
                    if other == file {
                        assert(now[before.len() as int] == file);
                    }
                    if now.contains(other) {
                        let k = now.index_of(other);
                        if k < before.len() {
                            assert(before[k] == other);
                        }
                    }
                }
            }
        }
    } else {
        assert(now =~= Seq::<Seq<char>>::empty());
        assert(all =~= Seq::<Seq<char>>::empty());
    }
}

} // verus!
