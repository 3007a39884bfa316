//! The analysis of one translation unit: which directives of its main file
//! can go.

use crate::fileio::{payload, IncludeStatement};
use crate::includes::{
    has_edge, inserted, lemma_inserted, list_contains, marked, unused_of, well_formed,
    with_shortest_paths, FileID, IncludeGraph, Node,
};
use crate::pattern::{is_match, pattern_matches};
use crate::text::{cut_line, first_of, lemma_decoded, same_text, text_of, texts, LINE_FEED};
use crate::util::{
    ends_with, file_name, file_stem, join, parent, path_ends_with, path_file_name, path_file_stem,
    path_join, path_parent, path_strip_prefix, strip_prefix,
};
use vstd::prelude::*;
use vstd::string::*;
use vstd::utf8::*;

verus! {

/// The comment that pins a directive, in what stands behind the directive on
/// its line.
pub const RE_KEEP: &'static str = "^\\s*//\\s*keep";

/// A directive that can go: the file as the directive spells it, the path of the
/// file, and the line of the directive.
#[derive(Debug)]
pub struct Include {
    /// The file as the directive spells it.
    pub name: String,
    /// The path of the file.
    pub path: String,
    /// The line of the directive, counted from 1.
    pub line: usize,
}

/// What an [`Include`] stands for.
pub struct IncludeView {
    /// The file as the directive spells it.
    pub name: Seq<char>,
    /// The path of the file.
    pub path: Seq<char>,
    /// The line of the directive.
    pub line: nat,
}

impl View for Include {
    type V = IncludeView;

    open spec fn view(&self) -> IncludeView {
        IncludeView { name: self.name@, path: self.path@, line: self.line as nat }
    }
}

/// Whether sources or headers start in the directory.
pub open spec fn is_root_dir(dir: Seq<char>) -> bool {
    ||| path_ends_with(dir, "src"@)
    ||| path_ends_with(dir, "include"@)
    ||| path_ends_with(dir, "src/main"@)
    ||| path_ends_with(dir, "include/main"@)
}

/// What is left of `path` behind `below` in the first of `dirs` that holds it
/// there.
pub open spec fn strip_below(path: Seq<char>, dirs: Seq<Seq<char>>, below: Seq<char>) -> Option<
    Seq<char>,
>
    decreases dirs.len(),
{
    if dirs.len() == 0 {
        None
    } else {
        match path_strip_prefix(path, path_join(path_join(Seq::empty(), dirs[0]), below)) {
            Some(rest) => Some(rest),
            None => strip_below(path, dirs.drop_first(), below),
        }
    }
}

/// What is left of `path` behind the first of `dirs` that holds it.
pub open spec fn strip_first(path: Seq<char>, dirs: Seq<Seq<char>>) -> Option<Seq<char>>
    decreases dirs.len(),
{
    if dirs.len() == 0 {
        None
    } else {
        match path_strip_prefix(path, dirs[0]) {
            Some(rest) => Some(rest),
            None => strip_first(path, dirs.drop_first()),
        }
    }
}

/// The spelling that the ancestor `ancestor` of the directory `filedir` gives:
/// where sources start in it, `path` as it stands in one of `dirs` at the depth
/// of `filedir` below `ancestor`.
pub open spec fn spelling_via(
    path: Seq<char>,
    filedir: Seq<char>,
    ancestor: Seq<char>,
    dirs: Seq<Seq<char>>,
) -> Option<Seq<char>> {
    if is_root_dir(ancestor) {
        match path_strip_prefix(filedir, ancestor) {
            Some(below) => strip_below(path, dirs, below),
            None => None,
        }
    } else {
        None
    }
}

/// The spelling that the nearest ancestor of `filedir` gives, from `ancestor`
/// upwards.
pub open spec fn spelling_from(
    path: Seq<char>,
    filedir: Seq<char>,
    ancestor: Seq<char>,
    dirs: Seq<Seq<char>>,
) -> Option<Seq<char>>
    decreases ancestor.len(),
{
    match spelling_via(path, filedir, ancestor, dirs) {
        Some(spelling) => Some(spelling),
        None => match path_parent(ancestor) {
            Some(up) => if up.len() < ancestor.len() {
                spelling_from(path, filedir, up, dirs)
            } else {
                None
            },
            None => None,
        },
    }
}

/// The spelling of `path` in a directive of `file`, relative to the search path
/// `dirs`: the one that the nearest source root above `file` gives, else what is
/// left of `path` behind the first directory of the search path that holds it.
pub open spec fn local_spelling(path: Seq<char>, file: Seq<char>, dirs: Seq<Seq<char>>) -> Option<
    Seq<char>,
> {
    let near = match path_parent(file) {
        Some(filedir) => spelling_from(path, filedir, filedir, dirs),
        None => None,
    };
    match near {
        Some(spelling) => Some(spelling),
        None => strip_first(path, dirs),
    }
}

/// The directive that names `path` in `file`: in quotes with the relative
/// spelling where there is one, else in angle brackets with the name of the file.
pub open spec fn spelling_of(path: Seq<char>, file: Seq<char>, dirs: Seq<Seq<char>>)
    -> crate::fileio::Statement {
    match local_spelling(path, file, dirs) {
        Some(spelling) => crate::fileio::Statement::Local(spelling),
        None => crate::fileio::Statement::Global(
            match path_file_name(path) {
                Some(name) => name,
                None => path,
            },
        ),
    }
}

/// Whether sources or headers start in the directory.
pub fn root_dir(dir: &str) -> (r: bool)
    ensures
        r == is_root_dir(dir@),
{
    ends_with(dir, "src") || ends_with(dir, "include") || ends_with(dir, "src/main") || ends_with(
        dir,
        "include/main",
    )
}

/// What is left of `path` behind `below` in the first directory that holds it
/// there.
pub fn strip_below_any(path: &str, include_paths: &Vec<String>, below: &str) -> (r: Option<String>)
    ensures
        text_of(r) == strip_below(path@, texts(include_paths@), below@),
{
    let ghost dirs = texts(include_paths@);
    let mut i: usize = 0;
    assert(dirs.skip(0) =~= dirs);
    while i < include_paths.len()
        invariant
            i <= include_paths.len(),
            dirs == texts(include_paths@),
            strip_below(path@, dirs, below@) == strip_below(path@, dirs.skip(i as int), below@),
        decreases include_paths.len() - i,
    {
        proof {
            let rest = dirs.skip(i as int);
            assert(rest[0] == include_paths@[i as int]@);
            assert(rest.drop_first() =~= dirs.skip(i + 1));
        }
        let start = String::new();
        let dir = join(start.as_str(), include_paths[i].as_str());
        let base = join(dir.as_str(), below);
        match strip_prefix(path, base.as_str()) {
            Some(rest) => {
                return Some(rest);
            },
            None => {},
        }
        i += 1;
    }
    None
}

/// What is left of `path` behind the first directory that holds it.
pub fn strip_any(path: &str, include_paths: &Vec<String>) -> (r: Option<String>)
    ensures
        text_of(r) == strip_first(path@, texts(include_paths@)),
{
    let ghost dirs = texts(include_paths@);
    let mut i: usize = 0;
    assert(dirs.skip(0) =~= dirs);
    while i < include_paths.len()
        invariant
            i <= include_paths.len(),
            dirs == texts(include_paths@),
            strip_first(path@, dirs) == strip_first(path@, dirs.skip(i as int)),
        decreases include_paths.len() - i,
    {
        proof {
            let rest = dirs.skip(i as int);
            assert(rest[0] == include_paths@[i as int]@);
            assert(rest.drop_first() =~= dirs.skip(i + 1));
        }
        match strip_prefix(path, include_paths[i].as_str()) {
            Some(rest) => {
                return Some(rest);
            },
            None => {},
        }
        i += 1;
    }
    None
}

/// The spelling of `path` in a directive of `file`, relative to the search path.
pub fn relative_spelling(path: &str, file: &str, include_paths: &Vec<String>) -> (r: Option<String>)
    ensures
        text_of(r) == local_spelling(path@, file@, texts(include_paths@)),
{
    let ghost dirs = texts(include_paths@);
    match parent(file) {
        Some(filedir) => {
            let mut ancestor = filedir.clone();
            loop
                invariant
                    dirs == texts(include_paths@),
                    path_parent(file@) == Some(filedir@),
                    spelling_from(path@, filedir@, filedir@, dirs) == spelling_from(
                        path@,
                        filedir@,
                        ancestor@,
                        dirs,
                    ),
                ensures
                    spelling_from(path@, filedir@, filedir@, dirs) is None,
                decreases ancestor@.len(),
            {
                if root_dir(ancestor.as_str()) {
                    match strip_prefix(filedir.as_str(), ancestor.as_str()) {
                        Some(below) => {
                            match strip_below_any(path, include_paths, below.as_str()) {
                                Some(spelling) => {
                                    return Some(spelling);
                                },
                                None => {},
                            }
                        },
                        None => {},
                    }
                }
                match parent(ancestor.as_str()) {
                    Some(up) => {
                        ancestor = up;
                    },
                    None => {
                        break ;
                    },
                }
            }
        },
        None => {},
    }
    strip_any(path, include_paths)
}

/// The directive that names `target_path` in `including_file`: in quotes with
/// the relative spelling where the search path gives one, else in angle brackets
/// with the name of the file.
pub fn choose_spelling(target_path: &str, including_file: &str, include_paths: &Vec<String>) -> (r:
    IncludeStatement)
    ensures
        r@ == spelling_of(target_path@, including_file@, texts(include_paths@)),
{
    match relative_spelling(target_path, including_file, include_paths) {
        Some(spelling) => IncludeStatement::Local(spelling),
        None => match file_name(target_path) {
            Some(name) => IncludeStatement::Global(name),
            None => IncludeStatement::Global(target_path.to_owned()),
        },
    }
}

impl Include {
    /// The record of a directive.
    pub fn new(name: String, path: String, line: usize) -> (r: Include)
        ensures
            r.name == name,
            r.path == path,
            r.line == line,
    {
        Include { name, path, line }
    }

    /// The path of the file relative to `file`, where the search path gives one.
    pub fn get_local(&self, file: &str, include_paths: &Vec<String>) -> (r: Option<String>)
        ensures
            text_of(r) == local_spelling(self.path@, file@, texts(include_paths@)),
    {
        relative_spelling(self.path.as_str(), file, include_paths)
    }

    /// The spelling to use in `file`, as [`choose_spelling`] gives it: the
    /// relative path and `true` where the search path gives one, else the name of
    /// the file and `false`.
    pub fn get_include(&self, file: &str, include_paths: &Vec<String>) -> (r: (bool, String))
        ensures
            r.0 == (local_spelling(self.path@, file@, texts(include_paths@)) is Some),
            r.1@ == payload(spelling_of(self.path@, file@, texts(include_paths@))),
    {
        match choose_spelling(self.path.as_str(), file, include_paths) {
            IncludeStatement::Local(spelling) => (true, spelling),
            IncludeStatement::Global(name) => (false, name),
        }
    }
}

/// What stands in `bytes` between `offset` and the end of its line, `None`
/// where `offset` lies outside the text or inside a character.
pub open spec fn rest_of_line(bytes: Seq<u8>, offset: int) -> Option<Seq<char>> {
    if is_char_boundary(bytes, offset) {
        let tail = bytes.skip(offset);
        Some(decode_utf8(tail.take(first_of(tail, LINE_FEED) as int)))
    } else {
        None
    }
}

/// What stands in `content` between `offset` and the end of its line.
pub fn get_remaining_line(content: &str, offset: usize) -> (r: Option<String>)
    ensures
        text_of(r) == rest_of_line(content.spec_bytes(), offset as int),
{
    if !content.is_char_boundary(offset) {
        return None;
    }
    let (_, tail) = content.split_at(offset);
    let (line, _) = cut_line(tail);
    proof {
        lemma_decoded(line);
    }
    Some(line.to_owned())
}

/// A directive as the frontend reports it.
#[derive(Debug)]
pub struct Directive {
    /// The file as the directive spells it.
    pub name: String,
    /// The file in which the directive stands.
    pub from: FileID,
    /// The path of that file.
    pub from_path: String,
    /// The file that the directive names.
    pub to: FileID,
    /// The path of that file.
    pub to_path: String,
    /// Whether the directive stands in the main file of the translation unit.
    pub in_main_file: bool,
    /// What stands behind the directive on its line, where the text is at hand.
    pub rest_of_line: Option<String>,
    /// The line on which the directive starts, counted from 1.
    pub line: usize,
}

/// What a [`Directive`] stands for.
pub struct DirectiveView {
    /// The file as the directive spells it.
    pub name: Seq<char>,
    /// The file in which the directive stands.
    pub from: FileID,
    /// The path of that file.
    pub from_path: Seq<char>,
    /// The file that the directive names.
    pub to: FileID,
    /// The path of that file.
    pub to_path: Seq<char>,
    /// Whether the directive stands in the main file.
    pub in_main_file: bool,
    /// What stands behind the directive on its line.
    pub rest_of_line: Option<Seq<char>>,
    /// The line on which the directive starts.
    pub line: nat,
}

impl View for Directive {
    type V = DirectiveView;

    open spec fn view(&self) -> DirectiveView {
        DirectiveView {
            name: self.name@,
            from: self.from,
            from_path: self.from_path@,
            to: self.to,
            to_path: self.to_path@,
            in_main_file: self.in_main_file,
            rest_of_line: text_of(self.rest_of_line),
            line: self.line as nat,
        }
    }
}

/// What each directive stands for.
pub open spec fn directives_of(list: Seq<Directive>) -> Seq<DirectiveView> {
    list.map_values(|d: Directive| d@)
}

/// Whether the comment that pins a directive stands behind it.
pub open spec fn is_kept(rest: Option<Seq<char>>) -> bool {
    match rest {
        Some(line) => pattern_matches(RE_KEEP@, line),
        None => false,
    }
}

/// Whether the directive stays out of the graph: one of the main file that is
/// pinned by a comment, or names a path that `ignore` matches, or names the
/// header of the main file itself, which has the stem of the main file.
pub open spec fn is_ignored(d: DirectiveView, ignore: Seq<char>) -> bool {
    d.in_main_file && (is_kept(d.rest_of_line) || pattern_matches(ignore, d.to_path)
        || path_file_stem(d.from_path) == path_file_stem(d.to_path))
}

/// Whether two stems are the same: both are missing, or both are there and hold
/// the same characters.
pub fn same_stem(from: &Option<String>, to: &Option<String>) -> (r: bool)
    ensures
        r == (text_of(*from) == text_of(*to)),
{
    match from {
        Some(a) => match to {
            Some(b) => same_text(a.as_str(), b.as_str()),
            None => false,
        },
        None => to.is_none(),
    }
}

/// Checks if this directive should be ignored.
pub fn include_should_be_ignored(directive: &Directive, ignore_includes: &str) -> (r: bool)
    ensures
        r == is_ignored(directive@, ignore_includes@),
{
    if !directive.in_main_file {
        return false;
    }
    let kept = match &directive.rest_of_line {
        Some(line) => is_match(RE_KEEP, line.as_str()),
        None => false,
    };
    if kept || is_match(ignore_includes, directive.to_path.as_str()) {
        return true;
    }
    let from = file_stem(directive.from_path.as_str());
    let to = file_stem(directive.to_path.as_str());
    same_stem(&from, &to)
}

/// The graph with the edges of the directives that are not ignored, in their
/// order.
pub open spec fn with_directives(g: Seq<Node>, directives: Seq<DirectiveView>, ignore: Seq<char>)
    -> Seq<Node>
    decreases directives.len(),
{
    if directives.len() == 0 {
        g
    } else {
        let before = with_directives(g, directives.drop_last(), ignore);
        let d = directives.last();
        if is_ignored(d, ignore) {
            before
        } else {
            inserted(before, d.from, d.to)
        }
    }
}

/// The graph has an edge only where a directive that is not ignored stands for
/// it: no directive of the main file that is pinned, that names an ignored path,
/// or that names the header of the main file itself brings an edge.
pub proof fn lemma_edges_from_directives(
    directives: Seq<DirectiveView>,
    ignore: Seq<char>,
    from: FileID,
    to: FileID,
)
    requires
        has_edge(with_directives(Seq::empty(), directives, ignore), from, to),
    ensures
        exists|k: int|
            0 <= k < directives.len() && !is_ignored(#[trigger] directives[k], ignore)
                && directives[k].from == from && directives[k].to == to,
    decreases directives.len(),
{
    lemma_with_directives(Seq::empty(), directives, ignore);
    if directives.len() == 0 {
        let g = Seq::<Node>::empty();
        assert(!has_edge(g, from, to));
    } else {
        let rest = directives.drop_last();
        let d = directives.last();
        let before = with_directives(Seq::empty(), rest, ignore);
        lemma_with_directives(Seq::empty(), rest, ignore);
        if !is_ignored(d, ignore) {
            lemma_inserted(before, d.from, d.to);
        }
        if has_edge(before, from, to) {
            lemma_edges_from_directives(rest, ignore, from, to);
            let k = choose|k: int|
                0 <= k < rest.len() && !is_ignored(#[trigger] rest[k], ignore) && rest[k].from
                    == from && rest[k].to == to;
            assert(directives[k] == rest[k]);
        } else {
            assert(directives[directives.len() - 1] == d);
        }
    }
}

/// The edges of directives keep a graph well formed.
pub proof fn lemma_with_directives(g: Seq<Node>, directives: Seq<DirectiveView>, ignore: Seq<char>)
    requires
        well_formed(g),
    ensures
        well_formed(with_directives(g, directives, ignore)),
    decreases directives.len(),
{
    if directives.len() > 0 {
        let d = directives.last();
        lemma_with_directives(g, directives.drop_last(), ignore);
        if !is_ignored(d, ignore) {
            lemma_inserted(with_directives(g, directives.drop_last(), ignore), d.from, d.to);
        }
    }
}

/// Creates the graph of the translation unit: an edge for every directive that
/// is not ignored.
pub fn find_includes(directives: &Vec<Directive>, ignore_includes: &str, includes: &mut IncludeGraph)
    requires
        old(includes).wf(),
    ensures
        final(includes)@ == with_directives(
            old(includes)@,
            directives_of(directives@),
            ignore_includes@,
        ),
        final(includes).wf(),
{
    let ghost all = directives_of(directives@);
    let mut i: usize = 0;
    assert(all.take(0) =~= Seq::<DirectiveView>::empty());
    while i < directives.len()
        invariant
            i <= directives.len(),
            all == directives_of(directives@),
            includes.wf(),
            includes@ == with_directives(old(includes)@, all.take(i as int), ignore_includes@),
        decreases directives.len() - i,
    {
        proof {
            let next = all.take(i + 1);
            assert(next.drop_last() =~= all.take(i as int));
            assert(next.last() == directives@[i as int]@);
        }
        if !include_should_be_ignored(&directives[i], ignore_includes) {
            includes.insert(directives[i].from, directives[i].to);
        }
        i += 1;
    }
    assert(all.take(i as int) =~= all);
}

/// What kind of entity the frontend reports.
#[derive(Debug, Clone, Copy)]
pub enum EntityKind {
    /// A reference to a declared value or function.
    DeclRefExpr,
    /// A reference to a type.
    TypeRef,
    /// A reference to a template.
    TemplateRef,
    /// The expansion of a macro.
    MacroExpansion,
    /// The declaration of a type alias.
    TypeAliasDecl,
    /// A `typedef`.
    TypedefDecl,
    /// Anything else.
    Other,
}

/// What to resolve for an entity.
#[derive(Debug, Clone, Copy)]
pub enum Follow {
    /// What the entity refers to: its definition where there is one, else its
    /// declaration.
    Reference,
    /// The declaration of the type that the entity names.
    UnderlyingType,
    /// Nothing: the entity refers to nothing that matters.
    Nothing,
}

/// What to resolve for an entity of the given kind.
pub open spec fn follow_of(kind: EntityKind) -> Follow {
    match kind {
        EntityKind::DeclRefExpr => Follow::Reference,
        EntityKind::TypeRef => Follow::Reference,
        EntityKind::TemplateRef => Follow::Reference,
        EntityKind::MacroExpansion => Follow::Reference,
        EntityKind::TypeAliasDecl => Follow::UnderlyingType,
        EntityKind::TypedefDecl => Follow::UnderlyingType,
        EntityKind::Other => Follow::Nothing,
    }
}

/// What to resolve for an entity of the given kind.
pub fn follow(kind: EntityKind) -> (r: Follow)
    ensures
        r == follow_of(kind),
{
    match kind {
        EntityKind::DeclRefExpr | EntityKind::TypeRef | EntityKind::TemplateRef
        | EntityKind::MacroExpansion => Follow::Reference,
        EntityKind::TypeAliasDecl | EntityKind::TypedefDecl => Follow::UnderlyingType,
        EntityKind::Other => Follow::Nothing,
    }
}

/// What an entity of the main file was resolved to.
#[derive(Debug, Clone, Copy)]
pub struct Reference {
    /// Whether the entity resolves to itself.
    pub resolves_to_itself: bool,
    /// Whether what it resolves to stands in the main file.
    pub in_main_file: bool,
    /// The file in which it stands, where the frontend knows it.
    pub file: Option<FileID>,
}

/// Whether the reference makes the file in which its target stands a used one:
/// it resolves to something else than itself, outside the main file, in a file
/// that is known.
pub open spec fn marks(r: Reference) -> bool {
    !r.resolves_to_itself && !r.in_main_file && r.file is Some
}

/// The graph with the file of the reference marked, where the reference marks
/// one.
pub open spec fn with_reference(g: Seq<Node>, r: Reference) -> Seq<Node> {
    if marks(r) {
        marked(g, r.file->Some_0)
    } else {
        g
    }
}

/// The graph with the files of the references marked.
pub open spec fn with_references(g: Seq<Node>, references: Seq<Reference>) -> Seq<Node>
    decreases references.len(),
{
    if references.len() == 0 {
        g
    } else {
        with_reference(with_references(g, references.drop_last()), references.last())
    }
}

/// Whether the walk goes on from what the entity was resolved to: it does
/// unless the entity resolves to itself.
pub fn goes_on(reference: &Reference) -> (descend: bool)
    ensures
        descend == !reference.resolves_to_itself,
{
    !reference.resolves_to_itself
}

/// Marks the file in which the target of a reference stands, and says whether
/// the walk goes on from the target: it does unless the entity resolves to
/// itself.
pub fn mark_includes_impl(reference: &Reference, includes: &mut IncludeGraph) -> (descend: bool)
    requires
        old(includes).wf(),
    ensures
        descend == !reference.resolves_to_itself,
        final(includes)@ == with_reference(old(includes)@, *reference),
        final(includes).wf(),
{
    if !goes_on(reference) {
        return false;
    }
    if !reference.in_main_file {
        match &reference.file {
            Some(to) => {
                includes.mark_used(to);
            },
            None => {},
        }
    }
    true
}

/// Marks all files that the references make used ones.
pub fn mark_includes(references: &Vec<Reference>, includes: &mut IncludeGraph)
    requires
        old(includes).wf(),
    ensures
        final(includes)@ == with_references(old(includes)@, references@),
        final(includes).wf(),
{
    let mut i: usize = 0;
    assert(references@.take(0) =~= Seq::<Reference>::empty());
    while i < references.len()
        invariant
            i <= references.len(),
            includes.wf(),
            includes@ == with_references(old(includes)@, references@.take(i as int)),
        decreases references.len() - i,
    {
        proof {
            let next = references@.take(i + 1);
            assert(next.drop_last() =~= references@.take(i as int));
            assert(next.last() == references@[i as int]);
        }
        let _ = mark_includes_impl(&references[i], includes);
        i += 1;
    }
    assert(references@.take(i as int) =~= references@);
}

/// What each record stands for.
pub open spec fn records_of(list: Seq<Include>) -> Seq<IncludeView> {
    list.map_values(|r: Include| r@)
}

/// The record of a directive.
pub open spec fn record_of(d: DirectiveView) -> IncludeView {
    IncludeView { name: d.name, path: d.to_path, line: d.line }
}

/// The records of the directives of `main` that name one of the `unused` files,
/// in the order of the directives.
pub open spec fn collected(directives: Seq<DirectiveView>, main: FileID, unused: Seq<FileID>) -> Seq<
    IncludeView,
>
    decreases directives.len(),
{
    if directives.len() == 0 {
        Seq::empty()
    } else {
        let before = collected(directives.drop_last(), main, unused);
        let d = directives.last();
        if d.from == main && unused.contains(d.to) {
            before.push(record_of(d))
        } else {
            before
        }
    }
}

/// Locates the unused directives in the main file.
pub fn collect_unused_includes(directives: &Vec<Directive>, main: &FileID, unused: &Vec<FileID>)
    -> (result: Vec<Include>)
    ensures
        records_of(result@) == collected(directives_of(directives@), *main, unused@),
{
    let ghost all = directives_of(directives@);
    let mut result: Vec<Include> = Vec::new();
    let mut i: usize = 0;
    assert(all.take(0) =~= Seq::<DirectiveView>::empty());
    assert(records_of(result@) =~= Seq::<IncludeView>::empty());
    while i < directives.len()
        invariant
            i <= directives.len(),
            all == directives_of(directives@),
            records_of(result@) == collected(all.take(i as int), *main, unused@),
        decreases directives.len() - i,
    {
        proof {
            let next = all.take(i + 1);
            assert(next.drop_last() =~= all.take(i as int));
            assert(next.last() == directives@[i as int]@);
        }
        let d = &directives[i];
        if crate::includes::same_file(&d.from, main) && list_contains(unused, &d.to) {
            let ghost before = result@;
            result.push(Include::new(d.name.clone(), d.to_path.clone(), d.line));
            assert(records_of(result@) =~= records_of(before).push(record_of(d@)));
        }
        i += 1;
    }
    assert(all.take(i as int) =~= all);
    result
}

/// The graph of a translation unit: the edges of its directives, and the marks of
/// its references.
pub open spec fn graph_of(directives: Seq<DirectiveView>, references: Seq<Reference>, ignore: Seq<
    char,
>) -> Seq<Node> {
    with_references(with_directives(Seq::empty(), directives, ignore), references)
}

/// The records of the directives of `main` that can go.
pub open spec fn unused_records(
    directives: Seq<DirectiveView>,
    references: Seq<Reference>,
    main: FileID,
    ignore: Seq<char>,
) -> Seq<IncludeView> {
    let g = with_shortest_paths(graph_of(directives, references, ignore), main);
    collected(directives, main, unused_of(g, main))
}

/// Returns all directives of the main file that name a file which nothing used
/// was reached through: the graph is made of the directives that are not ignored,
/// the files of the references are marked, and the directives of `main` that
/// name an unused direct successor of `main` are listed in their order.
pub fn unused_includes(
    directives: &Vec<Directive>,
    references: &Vec<Reference>,
    main: &FileID,
    ignore_includes: &str,
) -> (result: Vec<Include>)
    ensures
        records_of(result@) == unused_records(
            directives_of(directives@),
            references@,
            *main,
            ignore_includes@,
        ),
{
    let mut includes = IncludeGraph::new();
    find_includes(directives, ignore_includes, &mut includes);
    mark_includes(references, &mut includes);
    let unused = includes.unused(main);
    collect_unused_includes(directives, main, &unused)
}

} // verus!
