//! Paths, as `std::path` reads them, and the search for the file that a
//! directive names.
//!
//! A path is a string here. What `std::path` makes of it is not proved but
//! named: each of its functions that the search uses has a name for its
//! result, and the contracts speak of these names. `std::path` reads a path as
//! the platform does for which the library is built, so the names stand for
//! the results on that platform.

use crate::pattern::{all_captures, regex_captures};
use crate::text::{holds, same_text, text_of, texts, texts_of};
use vstd::prelude::*;
use vstd::string::*;

verus! {

/// The argument that adds a directory to the search path, in a compiler's
/// command line: the directory is the second group.
pub const RE_INCLUDE_PATH: &'static str = "(^|\\s)-I ?([^\\s]+)";

/// What `std::path::Path::parent` returns for `path`: the path without its last
/// component, `None` where it has none.
pub uninterp spec fn path_parent(path: Seq<char>) -> Option<Seq<char>>;

/// What `std::path::Path::join` returns for `base` and `path`: `path` itself
/// where it is absolute, else `base` with `path` behind it.
pub uninterp spec fn path_join(base: Seq<char>, path: Seq<char>) -> Seq<char>;

/// The components that `std::path::Path::components` yields for `path`, each
/// as `as_os_str` gives it.
pub uninterp spec fn path_components(path: Seq<char>) -> Seq<Seq<char>>;

/// What `std::path::Path::ends_with` returns: whether the components of `child`
/// are the last components of `path`.
pub uninterp spec fn path_ends_with(path: Seq<char>, child: Seq<char>) -> bool;

/// What `std::path::Path::strip_prefix` returns: what is left of `path` behind
/// the components of `base`, `None` where `path` does not start with them.
pub uninterp spec fn path_strip_prefix(path: Seq<char>, base: Seq<char>) -> Option<Seq<char>>;

/// What `std::path::Path::file_stem` returns: the last component without its
/// extension, `None` where the path ends in no file name.
pub uninterp spec fn path_file_stem(path: Seq<char>) -> Option<Seq<char>>;

/// What `std::path::Path::file_name` returns: the last component of the path,
/// `None` where the path ends in `..` or is the root.
pub uninterp spec fn path_file_name(path: Seq<char>) -> Option<Seq<char>>;

/// What `std::path::Path::extension` returns: what stands behind the last dot
/// of the file name, `None` where there is none.
pub uninterp spec fn path_extension(path: Seq<char>) -> Option<Seq<char>>;

/// `std::path::Path::parent`. The result depends on the path alone, and a parent
/// is shorter than the path, which it is a part of.
#[verifier::external_body]
pub(crate) fn parent(path: &str) -> (r: Option<String>)
    ensures
        text_of(r) == path_parent(path@),
        r matches Some(p) ==> p@.len() < path@.len(),
{
    std::path::Path::new(path).parent().map(|p| p.to_string_lossy().into_owned())
}

/// `std::path::Path::join`. The result depends on the two paths alone.
#[verifier::external_body]
pub(crate) fn join(base: &str, path: &str) -> (r: String)
    ensures
        r@ == path_join(base@, path@),
{
    std::path::Path::new(base).join(path).to_string_lossy().into_owned()
}

/// `std::path::Path::components`. The result depends on the path alone.
#[verifier::external_body]
pub(crate) fn components(path: &str) -> (r: Vec<String>)
    ensures
        texts(r@) == path_components(path@),
{
    std::path::Path::new(path).components().map(
        |c| c.as_os_str().to_string_lossy().into_owned(),
    ).collect()
}

/// `std::path::Path::ends_with`. The result depends on the two paths alone.
#[verifier::external_body]
pub(crate) fn ends_with(path: &str, child: &str) -> (r: bool)
    ensures
        r == path_ends_with(path@, child@),
{
    std::path::Path::new(path).ends_with(child)
}

/// `std::path::Path::strip_prefix`. The result depends on the two paths alone.
#[verifier::external_body]
pub(crate) fn strip_prefix(path: &str, base: &str) -> (r: Option<String>)
    ensures
        text_of(r) == path_strip_prefix(path@, base@),
{
    match std::path::Path::new(path).strip_prefix(base) {
        Ok(rest) => Some(rest.to_string_lossy().into_owned()),
        Err(_) => None,
    }
}

/// `std::path::Path::file_stem`. The result depends on the path alone.
#[verifier::external_body]
pub(crate) fn file_stem(path: &str) -> (r: Option<String>)
    ensures
        text_of(r) == path_file_stem(path@),
{
    std::path::Path::new(path).file_stem().map(|s| s.to_string_lossy().into_owned())
}

/// `std::path::Path::file_name`. The result depends on the path alone.
#[verifier::external_body]
pub(crate) fn file_name(path: &str) -> (r: Option<String>)
    ensures
        text_of(r) == path_file_name(path@),
{
    std::path::Path::new(path).file_name().map(|s| s.to_string_lossy().into_owned())
}

/// `std::path::Path::extension`. The result depends on the path alone.
#[verifier::external_body]
pub(crate) fn extension(path: &str) -> (r: Option<String>)
    ensures
        text_of(r) == path_extension(path@),
{
    std::path::Path::new(path).extension().map(|s| s.to_string_lossy().into_owned())
}

/// Whether `path` has the extension of a header, `h` or `hpp`.
pub open spec fn has_header_extension(path: Seq<char>) -> bool {
    path_extension(path) == Some("h"@) || path_extension(path) == Some("hpp"@)
}

/// Whether the given path points to a header file: a file, which `is_file`
/// says, with the extension `h` or `hpp`.
pub fn is_header_file(path: &str, is_file: bool) -> (r: bool)
    ensures
        r == (is_file && has_header_extension(path@)),
{
    if !is_file {
        return false;
    }
    match extension(path) {
        Some(e) => same_text(e.as_str(), "h") || same_text(e.as_str(), "hpp"),
        None => false,
    }
}

/// The values that are there, in their order.
pub open spec fn somes(items: Seq<Option<Seq<char>>>) -> Seq<Seq<char>>
    decreases items.len(),
{
    if items.len() == 0 {
        Seq::empty()
    } else {
        match items.last() {
            Some(item) => somes(items.drop_last()).push(item),
            None => somes(items.drop_last()),
        }
    }
}

/// The strings that are there, in their order.
pub fn present_captures(items: Vec<Option<String>>) -> (found: Vec<String>)
    ensures
        texts(found@) == somes(texts_of(items@)),
{
    let mut found: Vec<String> = Vec::new();
    let mut i: usize = 0;
    let ghost all = texts_of(items@);
    assert(texts(found@) =~= Seq::<Seq<char>>::empty());
    assert(all.take(0) =~= Seq::<Option<Seq<char>>>::empty());
    while i < items.len()
        invariant
            i <= items.len(),
            all == texts_of(items@),
            texts(found@) == somes(all.take(i as int)),
        decreases items.len() - i,
    {
        proof {
            let next = all.take(i + 1);
            assert(next.drop_last() =~= all.take(i as int));
            assert(next.last() == text_of(items@[i as int]));
        }
        let ghost before = found@;
        match &items[i] {
            Some(item) => {
                found.push(item.clone());
                assert(texts(found@) =~= texts(before).push(item@));
            },
            None => {},
        }
        i += 1;
    }
    assert(all.take(i as int) =~= all);
    found
}

/// The directories that the command line `command` adds to the search path with
/// `-I`, in their order.
pub fn include_paths(command: &str) -> (paths: Vec<String>)
    ensures
        texts(paths@) == somes(regex_captures(RE_INCLUDE_PATH@, command@, 2)),
{
    present_captures(all_captures(RE_INCLUDE_PATH, command, 2))
}

/// Whether a component names a directory in which sources or headers start.
pub open spec fn is_source_root(component: Seq<char>) -> bool {
    component == "include"@ || component == "src"@
}

/// The number of components up to and with the first source root, and the
/// `main` components behind it: what the search leaves out of the path of a file.
pub open spec fn root_prefix(parts: Seq<Seq<char>>) -> nat
    decreases parts.len(),
{
    if parts.len() == 0 {
        0
    } else if is_source_root(parts[0]) {
        1 + mains(parts.drop_first())
    } else {
        1 + root_prefix(parts.drop_first())
    }
}

/// The number of `main` components at the start.
pub open spec fn mains(parts: Seq<Seq<char>>) -> nat
    decreases parts.len(),
{
    if parts.len() == 0 || parts[0] != "main"@ {
        0
    } else {
        1 + mains(parts.drop_first())
    }
}

/// The path that is made of the components: each joined to those before it.
pub open spec fn gathered(parts: Seq<Seq<char>>) -> Seq<char>
    decreases parts.len(),
{
    if parts.len() == 0 {
        Seq::empty()
    } else {
        path_join(gathered(parts.drop_last()), parts.last())
    }
}

/// The directory of `file` below its source root, `None` where nothing of its
/// path is left behind the root.
pub open spec fn below_root(file: Seq<char>) -> Option<Seq<char>> {
    let parts = path_components(file);
    let rest = gathered(parts.skip(root_prefix(parts) as int));
    if rest.len() == 0 {
        None
    } else {
        match path_parent(rest) {
            Some(dir) => Some(dir),
            None => Some(rest),
        }
    }
}

/// `spelling` in each of the directories.
pub open spec fn in_each(dirs: Seq<Seq<char>>, spelling: Seq<char>) -> Seq<Seq<char>> {
    dirs.map_values(|dir: Seq<char>| path_join(dir, spelling))
}

/// `spelling` below `below` in each of the directories.
pub open spec fn below_each(dirs: Seq<Seq<char>>, below: Seq<char>, spelling: Seq<char>) -> Seq<
    Seq<char>,
> {
    dirs.map_values(|dir: Seq<char>| path_join(path_join(dir, below), spelling))
}

/// The places at which `spelling`, named in `file`, is looked for, in the order
/// of the search: beside `file`; in each directory of the search path; and, where
/// `file` stands below a source root, at the same depth below each directory of
/// the search path.
pub open spec fn candidates(file: Seq<char>, spelling: Seq<char>, dirs: Seq<Seq<char>>) -> Seq<
    Seq<char>,
> {
    let beside = match path_parent(file) {
        Some(dir) => seq![path_join(dir, spelling)],
        None => Seq::empty(),
    };
    let below = match below_root(file) {
        Some(dir) => below_each(dirs, dir, spelling),
        None => Seq::empty(),
    };
    beside + in_each(dirs, spelling) + below
}

/// The first of `places` that is among `existing`.
pub open spec fn first_existing(places: Seq<Seq<char>>, existing: Seq<Seq<char>>) -> Option<
    Seq<char>,
>
    decreases places.len(),
{
    if places.len() == 0 {
        None
    } else if existing.contains(places[0]) {
        Some(places[0])
    } else {
        first_existing(places.drop_first(), existing)
    }
}

/// The number of components that the search leaves out of the path of a file.
pub fn skip_root(parts: &Vec<String>) -> (n: usize)
    ensures
        n == root_prefix(texts(parts@)),
        n <= parts@.len(),
{
    let ghost all = texts(parts@);
    let mut i: usize = 0;
    proof {
        reveal_strlit("include");
        reveal_strlit("src");
        reveal_strlit("main");
        assert(all.skip(0) =~= all);
    }
    while i < parts.len() && !(same_text(parts[i].as_str(), "include") || same_text(
        parts[i].as_str(),
        "src",
    ))
        invariant
            i <= parts.len(),
            all == texts(parts@),
            root_prefix(all) == i + root_prefix(all.skip(i as int)),
        decreases parts.len() - i,
    {
        proof {
            let rest = all.skip(i as int);
            assert(rest[0] == parts@[i as int]@);
            assert(rest.drop_first() =~= all.skip(i + 1));
        }
        i += 1;
    }
    if i >= parts.len() {
        return i;
    }
    proof {
        let rest = all.skip(i as int);
        assert(rest[0] == parts@[i as int]@);
        assert(rest.drop_first() =~= all.skip(i + 1));
    }
    i += 1;
    let ghost start = i;
    while i < parts.len() && same_text(parts[i].as_str(), "main")
        invariant
            start <= i <= parts.len(),
            all == texts(parts@),
            mains(all.skip(start as int)) == (i - start) + mains(all.skip(i as int)),
        decreases parts.len() - i,
    {
        proof {
            let rest = all.skip(i as int);
            assert(rest[0] == parts@[i as int]@);
            assert(rest.drop_first() =~= all.skip(i + 1));
        }
        i += 1;
    }
    proof {
        let rest = all.skip(i as int);
        if i < parts.len() {
            assert(rest[0] == parts@[i as int]@);
        }
    }
    i
}

/// The places at which `spelling`, named in `file`, is looked for, in the order
/// of the search.
pub fn include_candidates(file: &str, spelling: &str, include_paths: &Vec<String>) -> (places: Vec<
    String,
>)
    ensures
        texts(places@) == candidates(file@, spelling@, texts(include_paths@)),
{
    let ghost dirs = texts(include_paths@);
    let mut places: Vec<String> = Vec::new();
    assert(texts(places@) =~= Seq::<Seq<char>>::empty());
    match parent(file) {
        Some(dir) => {
            places.push(join(dir.as_str(), spelling));
        },
        None => {},
    }
    let ghost beside = texts(places@);
    assert(beside =~= match path_parent(file@) {
        Some(dir) => seq![path_join(dir, spelling@)],
        None => Seq::empty(),
    });
    let mut i: usize = 0;
    while i < include_paths.len()
        invariant
            i <= include_paths.len(),
            dirs == texts(include_paths@),
            texts(places@) == beside + in_each(dirs, spelling@).take(i as int),
        decreases include_paths.len() - i,
    {
        let ghost before = places@;
        places.push(join(include_paths[i].as_str(), spelling));
        assert(texts(places@) =~= texts(before).push(path_join(dirs[i as int], spelling@)));
        assert(in_each(dirs, spelling@).take(i + 1) =~= in_each(dirs, spelling@).take(
            i as int,
        ).push(path_join(dirs[i as int], spelling@)));
        i += 1;
    }
    assert(in_each(dirs, spelling@).take(i as int) =~= in_each(dirs, spelling@));

    let parts = components(file);
    let skip = skip_root(&parts);
    let ghost left = texts(parts@).skip(skip as int);
    let mut relpath = String::new();
    let mut k: usize = skip;
    assert(left.take(0) =~= Seq::<Seq<char>>::empty());
    while k < parts.len()
        invariant
            skip <= k <= parts.len(),
            left == texts(parts@).skip(skip as int),
            relpath@ == gathered(left.take(k - skip)),
        decreases parts.len() - k,
    {
        proof {
            let next = left.take(k - skip + 1);
            assert(next.drop_last() =~= left.take(k - skip));
            assert(next.last() == parts@[k as int]@);
        }
        relpath = join(relpath.as_str(), parts[k].as_str());
        k += 1;
    }
    assert(left.take(k - skip) =~= left);
    if !relpath.as_str().is_empty() {
        let below = match parent(relpath.as_str()) {
            Some(dir) => dir,
            None => relpath,
        };
        let ghost so_far = texts(places@);
        let ghost tail = below_each(dirs, below@, spelling@);
        let mut j: usize = 0;
        while j < include_paths.len()
            invariant
                j <= include_paths.len(),
                dirs == texts(include_paths@),
                tail == below_each(dirs, below@, spelling@),
                texts(places@) == so_far + tail.take(j as int),
            decreases include_paths.len() - j,
        {
            let ghost before = places@;
            let dir = join(include_paths[j].as_str(), below.as_str());
            places.push(join(dir.as_str(), spelling));
            assert(texts(places@) =~= texts(before).push(tail[j as int]));
            assert(tail.take(j + 1) =~= tail.take(j as int).push(tail[j as int]));
            j += 1;
        }
        assert(tail.take(j as int) =~= tail);
    }
    places
}

/// The first of `places` that is among `existing`.
pub fn first_among(places: &Vec<String>, existing: &Vec<String>) -> (r: Option<String>)
    ensures
        text_of(r) == first_existing(texts(places@), texts(existing@)),
{
    let ghost all = texts(places@);
    let mut i: usize = 0;
    assert(all.skip(0) =~= all);
    while i < places.len()
        invariant
            i <= places.len(),
            all == texts(places@),
            first_existing(all, texts(existing@)) == first_existing(
                all.skip(i as int),
                texts(existing@),
            ),
        decreases places.len() - i,
    {
        proof {
            let rest = all.skip(i as int);
            assert(rest[0] == places@[i as int]@);
            assert(rest.drop_first() =~= all.skip(i + 1));
        }
        if holds(existing, places[i].as_str()) {
            return Some(places[i].clone());
        }
        i += 1;
    }
    None
}

/// Finds the file that the directive `spelling` in `file` names: the first place
/// of the search that is among `existing`, the paths that the caller has found to
/// exist.
pub fn find_include(
    file: &str,
    spelling: &str,
    include_paths: &Vec<String>,
    existing: &Vec<String>,
) -> (r: Option<String>)
    ensures
        text_of(r) == first_existing(
            candidates(file@, spelling@, texts(include_paths@)),
            texts(existing@),
        ),
{
    let places = include_candidates(file, spelling, include_paths);
    first_among(&places, existing)
}

} // verus!
