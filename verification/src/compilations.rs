//! The compile commands of the project.

use crate::dependencies::{dependents, Dependencies};
use crate::pattern::{is_match, pattern_matches, regex_captures};
use crate::text::{distinct, first_of, lemma_decoded, push_distinct, same_text, texts};
use crate::util::{include_paths, somes, RE_INCLUDE_PATH};
use vstd::prelude::*;
use vstd::string::*;
use vstd::utf8::*;

verus! {

/// The space that ends the name of the compiler in a command.
pub const SPACE: u8 = 32;

/// What `shlex::split` returns for `text`: its words as a shell reads them,
/// `None` where a quote or an escape is left open.
pub uninterp spec fn shlex_words(text: Seq<char>) -> Option<Seq<Seq<char>>>;

/// The characters of each string of a list that may be missing.
pub open spec fn words_of(words: Option<Vec<String>>) -> Option<Seq<Seq<char>>> {
    match words {
        Some(list) => Some(texts(list@)),
        None => None,
    }
}

/// `shlex::split`. The result depends on the text alone.
#[verifier::external_body]
fn shlex_split(text: &str) -> (r: Option<Vec<String>>)
    ensures
        words_of(r) == shlex_words(text@),
{
    shlex::split(text)
}

/// One command of the database.
#[derive(Debug)]
pub struct CompilationEntry {
    /// The source file.
    pub file: String,
    /// The command that compiles it.
    pub command: String,
}

/// What a [`CompilationEntry`] stands for.
pub struct Entry {
    /// The source file.
    pub file: Seq<char>,
    /// The command that compiles it.
    pub command: Seq<char>,
}

impl View for CompilationEntry {
    type V = Entry;

    open spec fn view(&self) -> Entry {
        Entry { file: self.file@, command: self.command@ }
    }
}

/// What each entry stands for.
pub open spec fn entries_of(list: Seq<CompilationEntry>) -> Seq<Entry> {
    list.map_values(|e: CompilationEntry| e@)
}

/// The position of the entry for `file`, or the number of entries where there
/// is none.
pub open spec fn position(entries: Seq<Entry>, file: Seq<char>) -> nat
    decreases entries.len(),
{
    if entries.len() == 0 || entries[0].file == file {
        0
    } else {
        1 + position(entries.drop_first(), file)
    }
}

/// The command of `file`, where it has one.
pub open spec fn command_of(entries: Seq<Entry>, file: Seq<char>) -> Option<Seq<char>> {
    let at = position(entries, file) as int;
    if at < entries.len() {
        Some(entries[at].command)
    } else {
        None
    }
}

/// The entries with `entry`: in place of the one that its file had, or behind
/// the others.
pub open spec fn with_entry(entries: Seq<Entry>, entry: Entry) -> Seq<Entry> {
    let at = position(entries, entry.file) as int;
    if at < entries.len() {
        entries.update(at, entry)
    } else {
        entries.push(entry)
    }
}

/// The entries among `commands` whose file `filter` matches, a later one in
/// place of an earlier one for the same file.
pub open spec fn retained(commands: Seq<Entry>, filter: Seq<char>) -> Seq<Entry>
    decreases commands.len(),
{
    if commands.len() == 0 {
        Seq::empty()
    } else {
        let before = retained(commands.drop_last(), filter);
        if pattern_matches(filter, commands.last().file) {
            with_entry(before, commands.last())
        } else {
            before
        }
    }
}

/// The directories that the commands of the first `n` entries add to the search
/// path, in their order, with repetitions.
pub open spec fn all_include_paths(entries: Seq<Entry>, n: int) -> Seq<Seq<char>>
    decreases n,
{
    if n <= 0 {
        Seq::empty()
    } else {
        all_include_paths(entries, n - 1) + somes(
            regex_captures(RE_INCLUDE_PATH@, entries[n - 1].command, 2),
        )
    }
}

/// The position of the first `-o` among the arguments, or their number where
/// there is none.
pub open spec fn output_flag(args: Seq<Seq<char>>) -> nat
    decreases args.len(),
{
    if args.len() == 0 || args[0] == "-o"@ {
        0
    } else {
        1 + output_flag(args.drop_first())
    }
}

/// The arguments for the frontend: the words of the command without the last,
/// which names the input, and without the first `-o` and the word behind it.
pub open spec fn stripped(words: Seq<Seq<char>>) -> Seq<Seq<char>> {
    let args = if words.len() > 0 {
        words.drop_last()
    } else {
        words
    };
    let at = output_flag(args) as int;
    if at >= args.len() {
        args
    } else if at + 1 < args.len() {
        args.take(at) + args.skip(at + 2)
    } else {
        args.take(at)
    }
}

/// What stands in a command behind the name of the compiler: the command from
/// its first space on, `None` where it holds no space.
pub open spec fn behind_compiler(command: Seq<u8>) -> Option<Seq<char>> {
    let at = first_of(command, SPACE) as int;
    if at < command.len() {
        Some(decode_utf8(command.skip(at)))
    } else {
        None
    }
}

/// The arguments that a command gives the frontend, `None` where the command is
/// the name of the compiler alone or cannot be split into words.
pub open spec fn arguments(command: Seq<u8>) -> Option<Seq<Seq<char>>> {
    match behind_compiler(command) {
        Some(rest) => match shlex_words(rest) {
            Some(words) => Some(stripped(words)),
            None => None,
        },
        None => None,
    }
}

/// The arguments for `file`: those of its own command; else those of the first
/// of its direct dependents that has a command; else those that the first of its
/// dependents gets in this way, down to the depth `fuel`.
pub open spec fn related_args(
    entries: Seq<Entry>,
    index: Map<Seq<char>, Seq<Seq<char>>>,
    file: Seq<char>,
    fuel: nat,
) -> Option<Seq<Seq<char>>>
    decreases fuel, 0nat,
{
    match command_of(entries, file) {
        Some(command) => arguments(crate::compilations::bytes_of(command)),
        None => {
            let direct = first_command(entries, dependents(index, file));
            match direct {
                Some(command) => arguments(crate::compilations::bytes_of(command)),
                None => if fuel == 0 {
                    None
                } else {
                    first_related(
                        entries,
                        index,
                        dependents(index, file),
                        (fuel - 1) as nat,
                        0,
                    )
                },
            }
        },
    }
}

/// The command of the first of `files` that has one.
pub open spec fn first_command(entries: Seq<Entry>, files: Seq<Seq<char>>) -> Option<Seq<char>>
    decreases files.len(),
{
    if files.len() == 0 {
        None
    } else {
        match command_of(entries, files[0]) {
            Some(command) => Some(command),
            None => first_command(entries, files.drop_first()),
        }
    }
}

/// The arguments that the first of `files`, from `from` on, gets.
pub open spec fn first_related(
    entries: Seq<Entry>,
    index: Map<Seq<char>, Seq<Seq<char>>>,
    files: Seq<Seq<char>>,
    fuel: nat,
    from: nat,
) -> Option<Seq<Seq<char>>>
    decreases fuel, 1nat + files.len() - from,
{
    if from >= files.len() {
        None
    } else {
        match related_args(entries, index, files[from as int], fuel) {
            Some(args) => Some(args),
            None => first_related(entries, index, files, fuel, from + 1),
        }
    }
}

/// The bytes that encode a text.
pub open spec fn bytes_of(text: Seq<char>) -> Seq<u8> {
    encode_utf8(text)
}

/// Removes from the words of a command what the frontend does not take: the
/// last word, which names the input, and the first `-o` with the word behind it.
pub fn strip_args(words: Vec<String>) -> (args: Vec<String>)
    ensures
        texts(args@) == stripped(texts(words@)),
{
    let mut args = words;
    let ghost all = texts(words@);
    if args.len() > 0 {
        args.pop();
        assert(texts(args@) =~= all.drop_last());
    }
    let ghost rest = texts(args@);
    let mut at: usize = 0;
    proof {
        reveal_strlit("-o");
        assert(rest.skip(0) =~= rest);
    }
    while at < args.len() && !same_text(args[at].as_str(), "-o")
        invariant
            at <= args.len(),
            rest == texts(args@),
            output_flag(rest) == at + output_flag(rest.skip(at as int)),
        decreases args.len() - at,
    {
        proof {
            let tail = rest.skip(at as int);
            assert(tail[0] == args@[at as int]@);
            assert(tail.drop_first() =~= rest.skip(at + 1));
        }
        at += 1;
    }
    proof {
        let tail = rest.skip(at as int);
        if at < args.len() {
            assert(tail[0] == args@[at as int]@);
        }
    }
    if at < args.len() {
        if at + 1 < args.len() {
            args.remove(at + 1);
        }
        args.remove(at);
        assert(texts(args@) =~= if at + 1 < rest.len() {
            rest.take(at as int) + rest.skip(at + 2)
        } else {
            rest.take(at as int)
        });
    }
    args
}

/// What stands in a command behind the name of the compiler.
pub fn skip_compiler(command: &str) -> (r: Option<&str>)
    ensures
        match r {
            Some(rest) => Some(rest@),
            None => None,
        } == behind_compiler(command.spec_bytes()),
{
    let bytes = command.as_bytes();
    let mut at: usize = 0;
    while at < bytes.len() && bytes[at] != SPACE
        invariant
            at <= bytes.len(),
            forall|i: int| 0 <= i < at ==> bytes@[i] != SPACE,
        decreases bytes.len() - at,
    {
        at += 1;
    }
    proof {
        crate::text::lemma_first_of_at(bytes@, SPACE, at as int);
        lemma_decoded(command);
    }
    if at >= bytes.len() {
        return None;
    }
    proof {
        is_char_boundary_iff_not_is_continuation_byte(bytes@, at as int);
    }
    let (_, rest) = command.split_at(at);
    proof {
        lemma_decoded(rest);
    }
    Some(rest)
}

/// The arguments that a command gives the frontend.
pub fn parse_args(command: &str) -> (r: Option<Vec<String>>)
    ensures
        words_of(r) == arguments(command.spec_bytes()),
{
    match skip_compiler(command) {
        Some(rest) => match shlex_split(rest) {
            Some(words) => Some(strip_args(words)),
            None => None,
        },
        None => None,
    }
}

/// Compile commands for the source files of a project: one for each file.
#[derive(Debug)]
pub struct Compilations {
    map: Vec<CompilationEntry>,
}

impl View for Compilations {
    type V = Seq<Entry>;

    closed spec fn view(&self) -> Seq<Entry> {
        entries_of(self.map@)
    }
}

impl Compilations {
    /// The position of the entry for `file`.
    fn find(&self, file: &str) -> (at: usize)
        ensures
            at == position(self@, file@),
            at <= self@.len(),
    {
        let ghost all = self@;
        let mut at: usize = 0;
        assert(all.skip(0) =~= all);
        while at < self.map.len() && !same_text(self.map[at].file.as_str(), file)
            invariant
                at <= self.map.len(),
                all == self@,
                position(all, file@) == at + position(all.skip(at as int), file@),
            decreases self.map.len() - at,
        {
            proof {
                let tail = all.skip(at as int);
                assert(tail[0] == self.map@[at as int]@);
                assert(tail.drop_first() =~= all.skip(at + 1));
            }
            at += 1;
        }
        proof {
            let tail = all.skip(at as int);
            if at < self.map.len() {
                assert(tail[0] == self.map@[at as int]@);
            }
        }
        at
    }

    /// The command of `file`, where it has one.
    pub fn command(&self, file: &str) -> (r: Option<&str>)
        ensures
            match r {
                Some(command) => Some(command@),
                None => None,
            } == command_of(self@, file@),
    {
        let at = self.find(file);
        if at < self.map.len() {
            Some(self.map[at].command.as_str())
        } else {
            None
        }
    }

    /// The database without a command.
    pub fn new() -> (r: Compilations)
        ensures
            r@ == Seq::<Entry>::empty(),
    {
        let r = Compilations { map: Vec::new() };
        assert(r@ =~= Seq::<Entry>::empty());
        r
    }

    /// Takes the command of a file: in place of the one that the file had, or
    /// behind those of the other files.
    pub fn insert(&mut self, entry: CompilationEntry)
        ensures
            final(self)@ == with_entry(old(self)@, entry@),
    {
        let at = self.find(entry.file.as_str());
        if at < self.map.len() {
            self.map[at] = entry;
            assert(self@ =~= old(self)@.update(at as int, entry@));
        } else {
            self.map.push(entry);
            assert(self@ =~= old(self)@.push(entry@));
        }
    }

    /// Collects the compile commands of the database: those whose file `filter`
    /// matches.
    pub fn parse(commands: Vec<CompilationEntry>, filter: &str) -> (r: Compilations)
        ensures
            r@ == retained(entries_of(commands@), filter@),
    {
        let ghost all = entries_of(commands@);
        let mut r = Compilations::new();
        let mut i: usize = 0;
        assert(all.take(0) =~= Seq::<Entry>::empty());
        while i < commands.len()
            invariant
                i <= commands.len(),
                all == entries_of(commands@),
                r@ == retained(all.take(i as int), filter@),
            decreases commands.len() - i,
        {
            proof {
                let next = all.take(i + 1);
                assert(next.drop_last() =~= all.take(i as int));
                assert(next.last() == commands@[i as int]@);
            }
            if is_match(filter, commands[i].file.as_str()) {
                r.insert(
                    CompilationEntry {
                        file: commands[i].file.clone(),
                        command: commands[i].command.clone(),
                    },
                );
            }
            i += 1;
        }
        assert(all.take(i as int) =~= all);
        r
    }

    /// Collects all directories that the commands add to the search path, each
    /// once, in the order in which they first occur.
    pub fn collect_include_paths(&self) -> (paths: Vec<String>)
        ensures
            texts(paths@) == distinct(all_include_paths(self@, self@.len() as int)),
    {
        let mut paths: Vec<String> = Vec::new();
        let mut i: usize = 0;
        assert(texts(paths@) =~= Seq::<Seq<char>>::empty());
        while i < self.map.len()
            invariant
                i <= self.map.len(),
                texts(paths@) == distinct(all_include_paths(self@, i as int)),
            decreases self.map.len() - i,
        {
            let found = include_paths(self.map[i].command.as_str());
            let ghost before = all_include_paths(self@, i as int);
            let ghost new = texts(found@);
            assert(new == somes(regex_captures(RE_INCLUDE_PATH@, self@[i as int].command, 2)));
            let mut k: usize = 0;
            assert(before + new.take(0) =~= before);
            while k < found.len()
                invariant
                    k <= found.len(),
                    new == texts(found@),
                    texts(paths@) == distinct(before + new.take(k as int)),
                decreases found.len() - k,
            {
                proof {
                    let next = before + new.take(k + 1);
                    assert(next.drop_last() =~= before + new.take(k as int));
                    assert(next.last() == found@[k as int]@);
                }
                push_distinct(&mut paths, found[k].clone());
                k += 1;
            }
            assert(new.take(k as int) =~= new);
            i += 1;
        }
        paths
    }

    /// The command of the first of `files` that has one.
    fn first_with_command(&self, files: &Vec<String>) -> (r: Option<&str>)
        ensures
            match r {
                Some(command) => Some(command@),
                None => None,
            } == first_command(self@, texts(files@)),
    {
        let ghost all = texts(files@);
        let mut i: usize = 0;
        assert(all.skip(0) =~= all);
        while i < files.len()
            invariant
                i <= files.len(),
                all == texts(files@),
                first_command(self@, all) == first_command(self@, all.skip(i as int)),
            decreases files.len() - i,
        {
            proof {
                let tail = all.skip(i as int);
                assert(tail[0] == files@[i as int]@);
                assert(tail.drop_first() =~= all.skip(i + 1));
            }
            match self.command(files[i].as_str()) {
                Some(command) => {
                    return Some(command);
                },
                None => {},
            }
            i += 1;
        }
        None
    }

    /// The arguments for `file`, searched among its dependents down to the
    /// depth `fuel`.
    pub fn related_args_within(&self, file: &str, index: &Dependencies, fuel: usize) -> (r: Option<
        Vec<String>,
    >)
        ensures
            words_of(r) == related_args(self@, index@, file@, fuel as nat),
        decreases fuel,
    {
        match self.command(file) {
            Some(command) => {
                proof {
                    lemma_decoded(command);
                }
                return parse_args(command);
            },
            None => {},
        }
        let files = index.get(file);
        match self.first_with_command(&files) {
            Some(command) => {
                proof {
                    lemma_decoded(command);
                }
                return parse_args(command);
            },
            None => {},
        }
        if fuel == 0 {
            return None;
        }
        let mut i: usize = 0;
        while i < files.len()
            invariant
                i <= files.len(),
                fuel > 0,
                command_of(self@, file@) is None,
                texts(files@) == dependents(index@, file@),
                first_command(self@, texts(files@)) is None,
                first_related(self@, index@, texts(files@), (fuel - 1) as nat, 0) == first_related(
                    self@,
                    index@,
                    texts(files@),
                    (fuel - 1) as nat,
                    i as nat,
                ),
            decreases files.len() - i,
        {
            assert(texts(files@)[i as int] == files@[i as int]@);
            match self.related_args_within(files[i].as_str(), index, fuel - 1) {
                Some(args) => {
                    return Some(args);
                },
                None => {},
            }
            i += 1;
        }
        None
    }

    /// Retrieves the arguments for `file`: those of its own command, else those
    /// of the first file that depends on it, directly or through others, and has
    /// a command. The search goes no deeper than the index has files.
    pub fn get_related_args(&self, file: &str, index: &Dependencies) -> (r: Option<Vec<String>>)
        ensures
            words_of(r) == related_args(self@, index@, file@, index@.dom().len()),
    {
        self.related_args_within(file, index, index.len())
    }

    /// All source files, in the order in which their commands were first given.
    pub fn sources(&self) -> (files: Vec<String>)
        ensures
            files@.len() == self@.len(),
            forall|i: int| 0 <= i < files@.len() ==> (#[trigger] files@[i])@ == self@[i].file,
    {
        let mut files: Vec<String> = Vec::new();
        let mut i: usize = 0;
        while i < self.map.len()
            invariant
                i <= self.map.len(),
                files@.len() == i,
                forall|j: int| 0 <= j < i ==> (#[trigger] files@[j])@ == self@[j].file,
            decreases self.map.len() - i,
        {
            files.push(self.map[i].file.clone());
            i += 1;
        }
        files
    }
}

} // verus!
