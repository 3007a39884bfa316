//! The index of the project: for each file, the files that name it in a
//! directive.

use crate::pattern::{is_match, pattern_matches};
use crate::text::{holds, texts};
use crate::util::{has_header_extension, is_header_file};
use multimap::MultiMap;
use vstd::prelude::*;
use vstd::string::*;

verus! {

/// `multimap::MultiMap`, which holds the index: nothing is known of a value of
/// it but what the functions below say.
#[verifier::external_type_specification]
#[verifier::external_body]
#[verifier::reject_recursive_types(K)]
#[verifier::reject_recursive_types(V)]
#[verifier::reject_recursive_types(S)]
pub struct ExMultiMap<K, V, S>(MultiMap<K, V, S>);

/// What a `multimap::MultiMap` of strings holds: for each key the values that
/// were inserted under it, in the order of their insertion.
pub uninterp spec fn multimap_entries(m: &MultiMap<String, String>) -> Map<
    Seq<char>,
    Seq<Seq<char>>,
>;

/// The index that holds nothing.
pub open spec fn empty_index() -> Map<Seq<char>, Seq<Seq<char>>> {
    Map::empty()
}

/// `MultiMap::new`: a map that holds nothing.
#[verifier::external_body]
fn multimap_new() -> (created: MultiMap<String, String>)
    ensures
        multimap_entries(&created) == empty_index(),
{
    MultiMap::new()
}

/// `MultiMap::insert`: the value is pushed behind those that the key has, and a
/// key that had none gets a list of this one value. No other key changes.
#[verifier::external_body]
fn multimap_insert(m: &mut MultiMap<String, String>, k: String, v: String)
    ensures
        multimap_entries(final(m)) == multimap_entries(old(m)).insert(
            k@,
            if multimap_entries(old(m)).contains_key(k@) {
                multimap_entries(old(m))[k@].push(v@)
            } else {
                seq![v@]
            },
        ),
{
    m.insert(k, v)
}

/// `MultiMap::get_vec`: the values of the key, `None` where the map has no
/// such key.
#[verifier::external_body]
fn multimap_get_vec<'a>(m: &'a MultiMap<String, String>, k: &str) -> (r: Option<&'a Vec<String>>)
    ensures
        match r {
            Some(values) => multimap_entries(m).contains_key(k@) && texts(values@)
                == multimap_entries(m)[k@],
            None => !multimap_entries(m).contains_key(k@),
        },
{
    m.get_vec(k)
}

/// `MultiMap::len`: the number of keys.
#[verifier::external_body]
fn multimap_len(m: &MultiMap<String, String>) -> (n: usize)
    ensures
        n == multimap_entries(m).dom().len(),
{
    m.len()
}

/// The files that name `file`, in the order in which they were recorded.
pub open spec fn dependents(index: Map<Seq<char>, Seq<Seq<char>>>, file: Seq<char>) -> Seq<
    Seq<char>,
> {
    if index.contains_key(file) {
        index[file]
    } else {
        Seq::empty()
    }
}

/// The index with `file` recorded as one that names `header`.
pub open spec fn with_dependent(
    index: Map<Seq<char>, Seq<Seq<char>>>,
    header: Seq<char>,
    file: Seq<char>,
) -> Map<Seq<char>, Seq<Seq<char>>> {
    index.insert(header, dependents(index, header).push(file))
}

/// The index with `file` recorded as one that names each of `headers`.
pub open spec fn with_dependents(
    index: Map<Seq<char>, Seq<Seq<char>>>,
    headers: Seq<Seq<char>>,
    file: Seq<char>,
) -> Map<Seq<char>, Seq<Seq<char>>>
    decreases headers.len(),
{
    if headers.len() == 0 {
        index
    } else {
        with_dependent(with_dependents(index, headers.drop_last(), file), headers.last(), file)
    }
}

/// A file of the project with what its directives resolve to.
#[derive(Debug)]
pub struct SourceFile {
    /// The path as the project names the file.
    pub path: String,
    /// The canonical path of the file.
    pub canonical: String,
    /// Whether the path points to a file.
    pub is_file: bool,
    /// The canonical paths of the files that its directives name.
    pub includes: Vec<String>,
}

/// What a [`SourceFile`] stands for.
pub struct SourceView {
    /// The path as the project names the file.
    pub path: Seq<char>,
    /// The canonical path of the file.
    pub canonical: Seq<char>,
    /// Whether the path points to a file.
    pub is_file: bool,
    /// The canonical paths of the files that its directives name.
    pub includes: Seq<Seq<char>>,
}

impl View for SourceFile {
    type V = SourceView;

    open spec fn view(&self) -> SourceView {
        SourceView {
            path: self.path@,
            canonical: self.canonical@,
            is_file: self.is_file,
            includes: texts(self.includes@),
        }
    }
}

/// What each file stands for.
pub open spec fn sources_of(list: Seq<SourceFile>) -> Seq<SourceView> {
    list.map_values(|f: SourceFile| f@)
}

/// The index with the files among `files` that `filter` matches, and that are
/// headers where `headers_only` is set.
pub open spec fn with_files(
    index: Map<Seq<char>, Seq<Seq<char>>>,
    files: Seq<SourceView>,
    filter: Seq<char>,
    headers_only: bool,
) -> Map<Seq<char>, Seq<Seq<char>>>
    decreases files.len(),
{
    if files.len() == 0 {
        index
    } else {
        let before = with_files(index, files.drop_last(), filter, headers_only);
        let f = files.last();
        if pattern_matches(filter, f.path) && (!headers_only || (f.is_file && has_header_extension(
            f.path,
        ))) {
            with_dependents(before, f.includes, f.canonical)
        } else {
            before
        }
    }
}

/// The lines that were printed and the files that were met.
pub struct Trace {
    /// The files that were met, in the order of the walk.
    pub visited: Seq<Seq<char>>,
    /// The lines that were printed.
    pub lines: Seq<Seq<char>>,
}

/// What stands before a file at depth `indent`: nothing at depth 0, else four
/// spaces for each level above the first, and a dash.
pub open spec fn prefix(indent: nat) -> Seq<char>
    decreases indent,
{
    if indent == 0 {
        Seq::empty()
    } else if indent == 1 {
        "  - "@
    } else {
        "    "@ + prefix((indent - 1) as nat)
    }
}

/// The walk from `root`, depth first: a file that was not met yet is printed and
/// its dependents are walked one level deeper, as long as `fuel` lasts; a file
/// that was met is printed as circular.
pub open spec fn printed(
    index: Map<Seq<char>, Seq<Seq<char>>>,
    root: Seq<char>,
    indent: nat,
    trace: Trace,
    fuel: nat,
) -> Trace
    decreases fuel, 0nat,
{
    if trace.visited.contains(root) {
        Trace { lines: trace.lines.push(prefix(indent) + "!circular: "@ + root), ..trace }
    } else {
        let here = Trace {
            visited: trace.visited.push(root),
            lines: trace.lines.push(prefix(indent) + root),
        };
        if fuel == 0 {
            here
        } else {
            printed_all(
                index,
                dependents(index, root),
                indent + 1,
                here,
                (fuel - 1) as nat,
                dependents(index, root).len(),
            )
        }
    }
}

/// The walk from each of the first `count` of `children`, in their order.
pub open spec fn printed_all(
    index: Map<Seq<char>, Seq<Seq<char>>>,
    children: Seq<Seq<char>>,
    indent: nat,
    trace: Trace,
    fuel: nat,
    count: nat,
) -> Trace
    decreases fuel, count + 1,
{
    if count == 0 {
        trace
    } else {
        printed(
            index,
            children[count - 1],
            indent,
            printed_all(index, children, indent, trace, fuel, (count - 1) as nat),
            fuel,
        )
    }
}

/// For each file of the project, the files that name it in a directive.
pub struct Dependencies {
    index: MultiMap<String, String>,
}

impl View for Dependencies {
    type V = Map<Seq<char>, Seq<Seq<char>>>;

    closed spec fn view(&self) -> Map<Seq<char>, Seq<Seq<char>>> {
        multimap_entries(&self.index)
    }
}

impl Dependencies {
    /// The empty index.
    pub fn new() -> (r: Dependencies)
        ensures
            r@ == empty_index(),
    {
        Dependencies { index: multimap_new() }
    }

    /// The number of files that some file names.
    pub fn len(&self) -> (n: usize)
        ensures
            n == self@.dom().len(),
    {
        multimap_len(&self.index)
    }

    /// Records `file` as one that names `header`.
    pub fn insert(&mut self, header: String, file: String)
        ensures
            final(self)@ == with_dependent(old(self)@, header@, file@),
    {
        multimap_insert(&mut self.index, header, file);
    }

    /// Records `file` as one that names each of `includes`, the files that its
    /// directives resolve to.
    pub fn add(&mut self, file: &str, includes: &Vec<String>)
        ensures
            final(self)@ == with_dependents(old(self)@, texts(includes@), file@),
    {
        let ghost all = texts(includes@);
        let mut i: usize = 0;
        assert(all.take(0) =~= Seq::<Seq<char>>::empty());
        while i < includes.len()
            invariant
                i <= includes.len(),
                all == texts(includes@),
                self@ == with_dependents(old(self)@, all.take(i as int), file@),
            decreases includes.len() - i,
        {
            proof {
                let next = all.take(i + 1);
                assert(next.drop_last() =~= all.take(i as int));
                assert(next.last() == includes@[i as int]@);
            }
            self.insert(includes[i].clone(), file.to_owned());
            i += 1;
        }
        assert(all.take(i as int) =~= all);
    }

    /// Records the files among `files` that `filter` matches, and that are
    /// headers where `headers_only` is set.
    pub fn add_files(&mut self, files: &Vec<SourceFile>, filter: &str, headers_only: bool)
        ensures
            final(self)@ == with_files(old(self)@, sources_of(files@), filter@, headers_only),
    {
        let ghost all = sources_of(files@);
        let mut i: usize = 0;
        assert(all.take(0) =~= Seq::<SourceView>::empty());
        while i < files.len()
            invariant
                i <= files.len(),
                all == sources_of(files@),
                self@ == with_files(old(self)@, all.take(i as int), filter@, headers_only),
            decreases files.len() - i,
        {
            proof {
                let next = all.take(i + 1);
                assert(next.drop_last() =~= all.take(i as int));
                assert(next.last() == files@[i as int]@);
            }
            let f = &files[i];
            if is_match(filter, f.path.as_str()) && (!headers_only || is_header_file(
                f.path.as_str(),
                f.is_file,
            )) {
                self.add(f.canonical.as_str(), &f.includes);
            }
            i += 1;
        }
        assert(all.take(i as int) =~= all);
    }

    /// Creates an index of all sources and of the headers that were found in the
    /// directories of the search path: each file that `filter` matches is
    /// recorded under every file that its directives name.
    pub fn create(files: &Vec<SourceFile>, found: &Vec<SourceFile>, filter: &str) -> (r:
        Dependencies)
        ensures
            r@ == with_files(
                with_files(empty_index(), sources_of(files@), filter@, false),
                sources_of(found@),
                filter@,
                true,
            ),
    {
        let mut dependencies = Dependencies::new();
        dependencies.add_files(files, filter, false);
        dependencies.add_files(found, filter, true);
        dependencies
    }

    /// The files that name `file` in a directive, in the order in which they were
    /// recorded.
    pub fn get(&self, file: &str) -> (r: Vec<String>)
        ensures
            texts(r@) == dependents(self@, file@),
    {
        let mut r: Vec<String> = Vec::new();
        assert(texts(r@) =~= Seq::<Seq<char>>::empty());
        match multimap_get_vec(&self.index, file) {
            Some(values) => {
                let mut i: usize = 0;
                while i < values.len()
                    invariant
                        i <= values.len(),
                        texts(r@) == texts(values@).take(i as int),
                    decreases values.len() - i,
                {
                    let ghost before = r@;
                    r.push(values[i].clone());
                    assert(texts(r@) =~= texts(before).push(values@[i as int]@));
                    assert(texts(values@).take(i + 1) =~= texts(values@).take(i as int).push(
                        values@[i as int]@,
                    ));
                    i += 1;
                }
                assert(texts(values@).take(i as int) =~= texts(values@));
            },
            None => {},
        }
        r
    }

    /// The lines that show the tree of the files that depend on `root`: each
    /// file below the one that it names, and a file that was met before marked
    /// as circular.
    pub fn print(&self, root: &str) -> (lines: Vec<String>)
        ensures
            texts(lines@) == printed(
                self@,
                root@,
                0,
                Trace { visited: Seq::empty(), lines: Seq::empty() },
                self@.dom().len(),
            ).lines,
    {
        let mut visited: Vec<String> = Vec::new();
        let mut lines: Vec<String> = Vec::new();
        assert(texts(visited@) =~= Seq::<Seq<char>>::empty());
        assert(texts(lines@) =~= Seq::<Seq<char>>::empty());
        let fuel = self.len();
        self.print_impl(root, 0, &mut visited, &mut lines, fuel);
        lines
    }

    /// What stands before a file at depth `indent`.
    pub fn indentation(indent: usize) -> (r: String)
        ensures
            r@ == prefix(indent as nat),
    {
        let mut r = String::new();
        if indent == 0 {
            return r;
        }
        let mut i: usize = 1;
        r.append("  - ");
        assert(r@ =~= prefix(1));
        while i < indent
            invariant
                1 <= i <= indent,
                r@ == prefix(i as nat),
            decreases indent - i,
        {
            let mut next = "    ".to_owned();
            next.append(r.as_str());
            r = next;
            i += 1;
        }
        r
    }

    fn print_impl(
        &self,
        root: &str,
        indent: usize,
        visited: &mut Vec<String>,
        lines: &mut Vec<String>,
        fuel: usize,
    )
        requires
            indent + fuel <= usize::MAX,
        ensures
            (Trace { visited: texts(final(visited)@), lines: texts(final(lines)@) }) == printed(
                self@,
                root@,
                indent as nat,
                Trace { visited: texts(old(visited)@), lines: texts(old(lines)@) },
                fuel as nat,
            ),
        decreases fuel,
    {
        let mut line = Dependencies::indentation(indent);
        if holds(visited, root) {
            line.append("!circular: ");
            line.append(root);
            let ghost before = lines@;
            lines.push(line);
            assert(texts(lines@) =~= texts(before).push(line@));
        } else {
            line.append(root);
            let ghost before = lines@;
            let ghost met = visited@;
            lines.push(line);
            visited.push(root.to_owned());
            assert(texts(lines@) =~= texts(before).push(line@));
            assert(texts(visited@) =~= texts(met).push(root@));
            if fuel > 0 {
                let children = self.get(root);
                let ghost here = Trace { visited: texts(visited@), lines: texts(lines@) };
                let mut i: usize = 0;
                while i < children.len()
                    invariant
                        i <= children.len(),
                        fuel > 0,
                        indent + fuel <= usize::MAX,
                        (Trace { visited: texts(visited@), lines: texts(lines@) }) == printed_all(
                            self@,
                            texts(children@),
                            (indent + 1) as nat,
                            here,
                            (fuel - 1) as nat,
                            i as nat,
                        ),
                    decreases children.len() - i,
                {
                    assert(texts(children@)[i as int] == children@[i as int]@);
                    self.print_impl(children[i].as_str(), indent + 1, visited, lines, fuel - 1);
                    i += 1;
                }
            }
        }
    }
}

} // verus!
