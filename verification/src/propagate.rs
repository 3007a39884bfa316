//! The run over a project: which file is analysed next, and what is written
//! into which file.

use crate::analyze::{choose_spelling, records_of, spelling_of, Include, IncludeView};
use crate::dependencies::{dependents, Dependencies};
use crate::fileio::{statements_of, IncludeStatement, Statement};
use crate::text::{holds, texts};
use vstd::prelude::*;
use vstd::seq_lib::seq_to_set_is_finite;
use vstd::set_lib::lemma_len_subset;
use vstd::string::*;

verus! {

/// What is left to do.
#[derive(Debug)]
pub enum Task {
    /// Analyse the file, unless it was analysed before.
    Visit(String),
    /// Add the directives to the file.
    Add(String, Vec<IncludeStatement>),
}

/// What a [`Task`] stands for.
pub enum TaskView {
    /// Analyse the file.
    Visit(Seq<char>),
    /// Add the directives to the file.
    Add(Seq<char>, Seq<Statement>),
}

impl View for Task {
    type V = TaskView;

    open spec fn view(&self) -> TaskView {
        match self {
            Task::Visit(file) => TaskView::Visit(file@),
            Task::Add(file, statements) => TaskView::Add(file@, statements_of(statements@)),
        }
    }
}

/// What the caller does next.
#[derive(Debug)]
pub enum Action {
    /// Analyse the file and report the directives that can go.
    Analyze(String),
    /// Remove the lines from the file, and format it.
    Remove(String, Vec<usize>),
    /// Add the directives to the file.
    Add(String, Vec<IncludeStatement>),
    /// Report that the file was met before.
    Circular(String),
    /// Nothing: the run is over.
    Finished,
}

/// What an [`Action`] stands for.
pub enum ActionView {
    /// Analyse the file.
    Analyze(Seq<char>),
    /// Remove the lines from the file.
    Remove(Seq<char>, Seq<usize>),
    /// Add the directives to the file.
    Add(Seq<char>, Seq<Statement>),
    /// Report that the file was met before.
    Circular(Seq<char>),
    /// The run is over.
    Finished,
}

impl View for Action {
    type V = ActionView;

    open spec fn view(&self) -> ActionView {
        match self {
            Action::Analyze(file) => ActionView::Analyze(file@),
            Action::Remove(file, lines) => ActionView::Remove(file@, lines@),
            Action::Add(file, statements) => ActionView::Add(file@, statements_of(statements@)),
            Action::Circular(file) => ActionView::Circular(file@),
            Action::Finished => ActionView::Finished,
        }
    }
}

/// What the caller reports.
#[derive(Debug)]
pub enum Event {
    /// The analysis of the file found these directives to be unused.
    Analyzed(Vec<Include>),
    /// The analysis of the file failed.
    Failed,
    /// The action was performed.
    Done,
}

/// What an [`Event`] stands for.
pub enum EventView {
    /// The analysis found these directives to be unused.
    Analyzed(Seq<IncludeView>),
    /// The analysis failed.
    Failed,
    /// The action was performed.
    Done,
}

impl View for Event {
    type V = EventView;

    open spec fn view(&self) -> EventView {
        match self {
            Event::Analyzed(unused) => EventView::Analyzed(records_of(unused@)),
            Event::Failed => EventView::Failed,
            Event::Done => EventView::Done,
        }
    }
}

/// What each task stands for.
pub open spec fn tasks_of(list: Seq<Task>) -> Seq<TaskView> {
    list.map_values(|t: Task| t@)
}

/// The state of a run.
pub struct Run {
    /// The files that were handed out for analysis, in their order.
    pub visited: Seq<Seq<char>>,
    /// What is left to do: the last task is the next.
    pub tasks: Seq<TaskView>,
    /// The file whose analysis is awaited.
    pub current: Option<Seq<char>>,
}

/// The lines of the directives.
pub open spec fn lines_of_records(unused: Seq<IncludeView>) -> Seq<usize> {
    unused.map_values(|r: IncludeView| r.line as usize)
}

/// The directives that name the files of `unused` in `file`.
pub open spec fn statements_for(unused: Seq<IncludeView>, file: Seq<char>, dirs: Seq<Seq<char>>)
    -> Seq<Statement> {
    unused.map_values(|r: IncludeView| spelling_of(r.path, file, dirs))
}

/// The tasks that the analysis of a file leaves for the first `count` of its
/// dependents: each gets the directives that were removed, where there are any,
/// and is analysed then. The first dependent is the last task, and so the next.
pub open spec fn planned(
    unused: Seq<IncludeView>,
    files: Seq<Seq<char>>,
    dirs: Seq<Seq<char>>,
    count: nat,
) -> Seq<TaskView>
    decreases files.len() - count,
{
    if count >= files.len() {
        Seq::empty()
    } else {
        let file = files[count as int];
        let later = planned(unused, files, dirs, count + 1);
        if unused.len() > 0 {
            later.push(TaskView::Visit(file)).push(
                TaskView::Add(file, statements_for(unused, file, dirs)),
            )
        } else {
            later.push(TaskView::Visit(file))
        }
    }
}

/// The next task taken: a file to add to is handed out; a file to visit is
/// handed out for analysis and remembered, or reported as circular where it was
/// handed out before.
pub open spec fn popped(run: Run) -> (Run, ActionView) {
    if run.tasks.len() == 0 {
        (run, ActionView::Finished)
    } else {
        let rest = Run { tasks: run.tasks.drop_last(), ..run };
        match run.tasks.last() {
            TaskView::Add(file, statements) => (rest, ActionView::Add(file, statements)),
            TaskView::Visit(file) => if run.visited.contains(file) {
                (rest, ActionView::Circular(file))
            } else {
                (
                    Run { visited: run.visited.push(file), current: Some(file), ..rest },
                    ActionView::Analyze(file),
                )
            },
        }
    }
}

/// One step of the run. The directives that the analysis of the awaited file
/// found are removed from it, and its dependents are planned; after a failed
/// analysis, and after any other event, the next task is taken.
pub open spec fn stepped(
    run: Run,
    event: EventView,
    index: Map<Seq<char>, Seq<Seq<char>>>,
    dirs: Seq<Seq<char>>,
) -> (Run, ActionView) {
    let idle = Run { current: None, ..run };
    match (run.current, event) {
        (Some(file), EventView::Analyzed(unused)) => {
            let next = Run {
                tasks: run.tasks + planned(unused, dependents(index, file), dirs, 0),
                ..idle
            };
            if unused.len() > 0 {
                (next, ActionView::Remove(file, lines_of_records(unused)))
            } else {
                popped(next)
            }
        },
        _ => popped(idle),
    }
}

/// No file is handed out twice: a step that hands out a file for analysis hands
/// out one that was not handed out before and remembers it, and no other step
/// changes what was handed out.
pub proof fn lemma_visits_once(
    run: Run,
    event: EventView,
    index: Map<Seq<char>, Seq<Seq<char>>>,
    dirs: Seq<Seq<char>>,
)
    requires
        run.visited.no_duplicates(),
    ensures
        stepped(run, event, index, dirs).0.visited.no_duplicates(),
        match stepped(run, event, index, dirs).1 {
            ActionView::Analyze(file) => !run.visited.contains(file) && stepped(
                run,
                event,
                index,
                dirs,
            ).0.visited == run.visited.push(file),
            _ => stepped(run, event, index, dirs).0.visited == run.visited,
        },
{
    let after = stepped(run, event, index, dirs);
    match after.1 {
        ActionView::Analyze(file) => {
            assert(after.0.visited == run.visited.push(file));
            assert forall|i: int, j: int|
                0 <= i < after.0.visited.len() && 0 <= j < after.0.visited.len() && i
                    != j implies after.0.visited[i] != after.0.visited[j] by {
                if i < run.visited.len() && j < run.visited.len() {
                } else if i < run.visited.len() {
                    assert(run.visited[i] != file);
                } else if j < run.visited.len() {
                    assert(run.visited[j] != file);
                }
            }
        },
        _ => {},
    }
}

/// Whether a task stays within the files of `universe`: a file to visit is
/// one of them.
pub open spec fn task_within(task: TaskView, universe: Set<Seq<char>>) -> bool {
    match task {
        TaskView::Visit(file) => universe.contains(file),
        TaskView::Add(_, _) => true,
    }
}

/// Whether `universe` holds every file that names one of its files.
pub open spec fn closed_under(universe: Set<Seq<char>>, index: Map<Seq<char>, Seq<Seq<char>>>)
    -> bool {
    forall|file: Seq<char>, k: int|
        universe.contains(file) && 0 <= k < dependents(index, file).len() ==> universe.contains(
            #[trigger] dependents(index, file)[k],
        )
}

/// Whether the run stays within `universe`, a finite set of files that holds
/// every file that names one of its files: no file was handed out twice, and
/// the files that were handed out, that are to visit and that is awaited are
/// files of the set.
pub open spec fn within(
    run: Run,
    universe: Set<Seq<char>>,
    index: Map<Seq<char>, Seq<Seq<char>>>,
) -> bool {
    &&& universe.finite()
    &&& closed_under(universe, index)
    &&& run.visited.no_duplicates()
    &&& forall|i: int| 0 <= i < run.visited.len() ==> universe.contains(#[trigger] run.visited[i])
    &&& forall|i: int| 0 <= i < run.tasks.len() ==> task_within(#[trigger] run.tasks[i], universe)
    &&& (run.current matches Some(file) ==> universe.contains(file))
}

/// The number of files of `universe` that were not handed out.
pub open spec fn unvisited(run: Run, universe: Set<Seq<char>>) -> nat {
    (universe.len() - run.visited.len()) as nat
}

/// Whether an analysis is awaited, as a number.
pub open spec fn awaiting(run: Run) -> nat {
    if run.current is Some {
        1
    } else {
        0
    }
}

/// Whether less is left of the run `next` than of `run`: fewer files that were
/// not handed out; or as many, and no analysis awaited where one was; or as
/// many, as much awaited, and fewer tasks.
pub open spec fn less_left(next: Run, run: Run, universe: Set<Seq<char>>) -> bool {
    ||| unvisited(next, universe) < unvisited(run, universe)
    ||| unvisited(next, universe) == unvisited(run, universe) && awaiting(next) < awaiting(run)
    ||| unvisited(next, universe) == unvisited(run, universe) && awaiting(next) == awaiting(run)
        && next.tasks.len() < run.tasks.len()
}

/// What the caller reports in the state `run`: what `outcome` says of the file
/// whose analysis is awaited, and that the action was performed where none is.
pub open spec fn event_of(run: Run, outcome: spec_fn(Seq<char>) -> EventView) -> EventView {
    match run.current {
        Some(file) => outcome(file),
        None => EventView::Done,
    }
}

/// The whole run from the state `run`: the actions that the caller is handed,
/// one after the other, up to `Finished`, where `outcome` says how the analysis
/// of each file ends. The run is defined by recursion over its steps, which ends
/// because each step leaves less of the run.
pub open spec fn whole_run(
    run: Run,
    outcome: spec_fn(Seq<char>) -> EventView,
    index: Map<Seq<char>, Seq<Seq<char>>>,
    dirs: Seq<Seq<char>>,
    universe: Set<Seq<char>>,
) -> Seq<ActionView>
    decreases unvisited(run, universe), awaiting(run), run.tasks.len(),
    when within(run, universe, index)
    via whole_run_ends
{
    let after = stepped(run, event_of(run, outcome), index, dirs);
    if after.1 is Finished {
        seq![after.1]
    } else {
        seq![after.1] + whole_run(after.0, outcome, index, dirs, universe)
    }
}

#[via_fn]
proof fn whole_run_ends(
    run: Run,
    outcome: spec_fn(Seq<char>) -> EventView,
    index: Map<Seq<char>, Seq<Seq<char>>>,
    dirs: Seq<Seq<char>>,
    universe: Set<Seq<char>>,
) {
    lemma_less_left(run, event_of(run, outcome), index, dirs, universe);
}

/// A run that stays within a set of files has handed out no more files than
/// the set holds.
pub proof fn lemma_visited_bound(
    run: Run,
    universe: Set<Seq<char>>,
    index: Map<Seq<char>, Seq<Seq<char>>>,
)
    requires
        within(run, universe, index),
    ensures
        run.visited.len() <= universe.len(),
{
    run.visited.unique_seq_to_set();
    assert forall|file: Seq<char>| run.visited.to_set().contains(file) implies universe.contains(
        file,
    ) by {
        let i = choose|i: int| 0 <= i < run.visited.len() && run.visited[i] == file;
        assert(universe.contains(run.visited[i]));
    }
    lemma_len_subset(run.visited.to_set(), universe);
}

/// The tasks that are planned visit none but the given files.
pub proof fn lemma_planned(
    unused: Seq<IncludeView>,
    files: Seq<Seq<char>>,
    dirs: Seq<Seq<char>>,
    count: nat,
    universe: Set<Seq<char>>,
)
    requires
        forall|k: int| 0 <= k < files.len() ==> universe.contains(#[trigger] files[k]),
    ensures
        forall|i: int|
            0 <= i < planned(unused, files, dirs, count).len() ==> task_within(
                #[trigger] planned(unused, files, dirs, count)[i],
                universe,
            ),
    decreases files.len() - count,
{
    if count < files.len() {
        lemma_planned(unused, files, dirs, count + 1, universe);
        assert(universe.contains(files[count as int]));
        let later = planned(unused, files, dirs, count + 1);
        let now = planned(unused, files, dirs, count);
        assert forall|i: int| 0 <= i < now.len() implies task_within(#[trigger] now[i], universe) by {
            if i < later.len() {
                assert(now[i] == later[i]);
            }
        }
    }
}

/// Taking the next task leaves less of a run in which no analysis is awaited,
/// unless no task is left.
pub proof fn lemma_popped(run: Run, universe: Set<Seq<char>>, index: Map<Seq<char>, Seq<Seq<char>>>)
    requires
        within(run, universe, index),
        run.current is None,
    ensures
        within(popped(run).0, universe, index),
        popped(run).1 is Finished <==> run.tasks.len() == 0,
        !(popped(run).1 is Finished) ==> unvisited(popped(run).0, universe) < unvisited(
            run,
            universe,
        ) || (unvisited(popped(run).0, universe) == unvisited(run, universe) && awaiting(
            popped(run).0,
        ) == 0 && popped(run).0.tasks.len() < run.tasks.len()),
{
    let next = popped(run).0;
    lemma_visited_bound(run, universe, index);
    if run.tasks.len() > 0 {
        let task = run.tasks.last();
        assert(task_within(run.tasks[run.tasks.len() - 1], universe));
        assert forall|i: int| 0 <= i < next.tasks.len() implies task_within(
            #[trigger] next.tasks[i],
            universe,
        ) by {
            assert(next.tasks[i] == run.tasks[i]);
        }
        match task {
            TaskView::Visit(file) => {
                if !run.visited.contains(file) {
                    assert(next.visited == run.visited.push(file));
                    assert forall|i: int, j: int|
                        0 <= i < next.visited.len() && 0 <= j < next.visited.len() && i
                            != j implies next.visited[i] != next.visited[j] by {
                        if i < run.visited.len() && j < run.visited.len() {
                        } else if i < run.visited.len() {
                            assert(run.visited.contains(run.visited[i]));
                        } else if j < run.visited.len() {
                            assert(run.visited.contains(run.visited[j]));
                        }
                    }
                    assert forall|i: int| 0 <= i < next.visited.len() implies universe.contains(
                        #[trigger] next.visited[i],
                    ) by {
                        if i < run.visited.len() {
                            assert(next.visited[i] == run.visited[i]);
                        }
                    }
                    lemma_visited_bound(next, universe, index);
                }
            },
            TaskView::Add(_, _) => {},
        }
    }
}

/// Every step but the last leaves less of the run, and there is never less than
/// nothing left: so every run ends. The step keeps the run within the set of
/// files.
pub proof fn lemma_less_left(
    run: Run,
    event: EventView,
    index: Map<Seq<char>, Seq<Seq<char>>>,
    dirs: Seq<Seq<char>>,
    universe: Set<Seq<char>>,
)
    requires
        within(run, universe, index),
    ensures
        within(stepped(run, event, index, dirs).0, universe, index),
        !(stepped(run, event, index, dirs).1 is Finished) ==> less_left(
            stepped(run, event, index, dirs).0,
            run,
            universe,
        ),
        stepped(run, event, index, dirs).1 is Finished ==> stepped(run, event, index, dirs).0.tasks.len()
            == 0 && stepped(run, event, index, dirs).0.current is None,
{
    let idle = Run { current: None, ..run };
    assert(within(idle, universe, index));
    match (run.current, event) {
        (Some(file), EventView::Analyzed(unused)) => {
            let files = dependents(index, file);
            let more = planned(unused, files, dirs, 0);
            let next = Run { tasks: run.tasks + more, ..idle };
            assert forall|k: int| 0 <= k < files.len() implies universe.contains(
                #[trigger] files[k],
            ) by {
                assert(universe.contains(dependents(index, file)[k]));
            }
            lemma_planned(unused, files, dirs, 0, universe);
            assert forall|i: int| 0 <= i < next.tasks.len() implies task_within(
                #[trigger] next.tasks[i],
                universe,
            ) by {
                if i < run.tasks.len() {
                    assert(next.tasks[i] == run.tasks[i]);
                } else {
                    assert(next.tasks[i] == more[i - run.tasks.len()]);
                }
            }
            assert(within(next, universe, index));
            if unused.len() == 0 {
                lemma_popped(next, universe, index);
            }
        },
        _ => {
            lemma_popped(idle, universe, index);
        },
    }
}

/// The whole run ends with `Finished`, and holds no other `Finished`.
pub proof fn lemma_whole_run(
    run: Run,
    outcome: spec_fn(Seq<char>) -> EventView,
    index: Map<Seq<char>, Seq<Seq<char>>>,
    dirs: Seq<Seq<char>>,
    universe: Set<Seq<char>>,
)
    requires
        within(run, universe, index),
    ensures
        whole_run(run, outcome, index, dirs, universe).len() >= 1,
        whole_run(run, outcome, index, dirs, universe).last() is Finished,
        forall|i: int|
            0 <= i < whole_run(run, outcome, index, dirs, universe).len() - 1 ==> !(
            #[trigger] whole_run(run, outcome, index, dirs, universe)[i] is Finished),
    decreases unvisited(run, universe), awaiting(run), run.tasks.len(),
{
    let after = stepped(run, event_of(run, outcome), index, dirs);
    lemma_less_left(run, event_of(run, outcome), index, dirs, universe);
    if !(after.1 is Finished) {
        lemma_whole_run(after.0, outcome, index, dirs, universe);
        let rest = whole_run(after.0, outcome, index, dirs, universe);
        let all = whole_run(run, outcome, index, dirs, universe);
        assert(all == seq![after.1] + rest);
        assert(all.last() == rest.last());
        assert forall|i: int| 0 <= i < all.len() - 1 implies !(#[trigger] all[i] is Finished) by {
            if i > 0 {
                assert(all[i] == rest[i - 1]);
            }
        }
    }
}

/// The state in which a run starts at `file`.
pub open spec fn start_of(file: Seq<char>) -> Run {
    Run { visited: Seq::empty(), tasks: seq![TaskView::Visit(file)], current: None }
}

/// The files of a run that starts at `file`: the file, and every file that the
/// index records as one that names another.
pub open spec fn files_of(index: Map<Seq<char>, Seq<Seq<char>>>, file: Seq<char>) -> Set<
    Seq<char>,
> {
    index.dom().map(|header: Seq<char>| index[header].to_set()).flatten().insert(file)
}

/// A run over an index of finitely many files stays within the files of the
/// index, from its start on.
pub proof fn lemma_start_within(index: Map<Seq<char>, Seq<Seq<char>>>, file: Seq<char>)
    requires
        index.dom().finite(),
    ensures
        within(start_of(file), files_of(index, file), index),
{
    let sets = index.dom().map(|header: Seq<char>| index[header].to_set());
    let universe = files_of(index, file);
    index.dom().lemma_map_finite(|header: Seq<char>| index[header].to_set());
    assert forall|s: Set<Seq<char>>| sets.contains(s) implies #[trigger] s.finite() by {
        let header = choose|header: Seq<char>|
            index.dom().contains(header) && index[header].to_set() == s;
        seq_to_set_is_finite(index[header]);
    }
    sets.lemma_flatten_finite();
    assert forall|other: Seq<char>, k: int|
        universe.contains(other) && 0 <= k < dependents(index, other).len() implies universe.contains(
        #[trigger] dependents(index, other)[k],
    ) by {
        let named = index[other].to_set();
        assert(index.dom().contains(other));
        assert(sets.contains(named));
        assert(named.contains(index[other][k]));
        assert(sets.flatten().contains(index[other][k]));
    }
    let run = start_of(file);
    assert(universe.contains(file));
    assert forall|i: int| 0 <= i < run.tasks.len() implies task_within(
        #[trigger] run.tasks[i],
        universe,
    ) by {}
}

/// Termination: the run from a file over an index of finitely many files ends,
/// whatever the index holds and however the analyses end. Its actions are a
/// finite list that ends with `Finished` and holds no other `Finished`.
pub proof fn lemma_run_ends(
    file: Seq<char>,
    outcome: spec_fn(Seq<char>) -> EventView,
    index: Map<Seq<char>, Seq<Seq<char>>>,
    dirs: Seq<Seq<char>>,
)
    requires
        index.dom().finite(),
    ensures
        whole_run(start_of(file), outcome, index, dirs, files_of(index, file)).len() >= 1,
        whole_run(start_of(file), outcome, index, dirs, files_of(index, file)).last() is Finished,
        forall|i: int|
            0 <= i < whole_run(start_of(file), outcome, index, dirs, files_of(index, file)).len()
                - 1 ==> !(#[trigger] whole_run(
                start_of(file),
                outcome,
                index,
                dirs,
                files_of(index, file),
            )[i] is Finished),
{
    lemma_start_within(index, file);
    lemma_whole_run(start_of(file), outcome, index, dirs, files_of(index, file));
}

/// A run over a project, from one file through the files that depend on it.
#[derive(Debug)]
pub struct Engine {
    visited: Vec<String>,
    tasks: Vec<Task>,
    current: Option<String>,
}

impl View for Engine {
    type V = Run;

    closed spec fn view(&self) -> Run {
        Run {
            visited: texts(self.visited@),
            tasks: tasks_of(self.tasks@),
            current: crate::text::text_of(self.current),
        }
    }
}

impl Engine {
    /// A run that starts at `file`.
    pub fn new(file: String) -> (engine: Engine)
        ensures
            engine@ == start_of(file@),
    {
        let mut tasks: Vec<Task> = Vec::new();
        tasks.push(Task::Visit(file));
        let engine = Engine { visited: Vec::new(), tasks, current: None };
        assert(engine@.visited =~= Seq::<Seq<char>>::empty());
        assert(engine@.tasks =~= seq![TaskView::Visit(file@)]);
        engine
    }

    /// The files that were handed out for analysis.
    pub fn visited(&self) -> (files: &Vec<String>)
        ensures
            texts(files@) == self@.visited,
    {
        &self.visited
    }

    /// The directives that name the files of `unused` in `file`.
    pub fn statements(unused: &Vec<Include>, file: &str, include_paths: &Vec<String>) -> (r: Vec<
        IncludeStatement,
    >)
        ensures
            statements_of(r@) == statements_for(records_of(unused@), file@, texts(include_paths@)),
    {
        let ghost want = statements_for(records_of(unused@), file@, texts(include_paths@));
        let mut r: Vec<IncludeStatement> = Vec::new();
        let mut i: usize = 0;
        assert(statements_of(r@) =~= want.take(0));
        while i < unused.len()
            invariant
                i <= unused.len(),
                want == statements_for(records_of(unused@), file@, texts(include_paths@)),
                statements_of(r@) == want.take(i as int),
            decreases unused.len() - i,
        {
            let ghost before = r@;
            r.push(choose_spelling(unused[i].path.as_str(), file, include_paths));
            assert(statements_of(r@) =~= statements_of(before).push(want[i as int]));
            assert(want.take(i + 1) =~= want.take(i as int).push(want[i as int]));
            i += 1;
        }
        assert(want.take(i as int) =~= want);
        r
    }

    /// Plans the dependents of a file that was analysed.
    fn plan(&mut self, unused: &Vec<Include>, files: &Vec<String>, include_paths: &Vec<String>)
        ensures
            final(self)@ == (Run {
                tasks: old(self)@.tasks + planned(
                    records_of(unused@),
                    texts(files@),
                    texts(include_paths@),
                    0,
                ),
                ..old(self)@
            }),
    {
        let ghost records = records_of(unused@);
        let ghost dirs = texts(include_paths@);
        let ghost all = texts(files@);
        let mut i: usize = files.len();
        assert(old(self)@.tasks + planned(records, all, dirs, i as nat) =~= old(self)@.tasks);
        while i > 0
            invariant
                i <= files.len(),
                records == records_of(unused@),
                dirs == texts(include_paths@),
                all == texts(files@),
                self@ == (Run {
                    tasks: old(self)@.tasks + planned(records, all, dirs, i as nat),
                    ..old(self)@
                }),
            decreases i,
        {
            i -= 1;
            let ghost before = self.tasks@;
            let ghost later = planned(records, all, dirs, (i + 1) as nat);
            assert(all[i as int] == files@[i as int]@);
            self.tasks.push(Task::Visit(files[i].clone()));
            assert(tasks_of(self.tasks@) =~= tasks_of(before).push(TaskView::Visit(all[i as int])));
            if unused.len() > 0 {
                let ghost middle = self.tasks@;
                let statements = Engine::statements(unused, files[i].as_str(), include_paths);
                self.tasks.push(Task::Add(files[i].clone(), statements));
                assert(tasks_of(self.tasks@) =~= tasks_of(middle).push(
                    TaskView::Add(all[i as int], statements_for(records, all[i as int], dirs)),
                ));
            }
            assert(self@.tasks =~= old(self)@.tasks + planned(records, all, dirs, i as nat));
        }
    }

    /// Takes the next task.
    fn pop(&mut self) -> (action: Action)
        ensures
            (final(self)@, action@) == popped(old(self)@),
    {
        let ghost before = self.tasks@;
        match self.tasks.pop() {
            None => Action::Finished,
            Some(task) => {
                assert(tasks_of(self.tasks@) =~= tasks_of(before).drop_last());
                assert(tasks_of(before).last() == task@);
                match task {
                    Task::Add(file, statements) => Action::Add(file, statements),
                    Task::Visit(file) => {
                        if holds(&self.visited, file.as_str()) {
                            Action::Circular(file)
                        } else {
                            let ghost met = self.visited@;
                            self.visited.push(file.clone());
                            self.current = Some(file.clone());
                            assert(texts(self.visited@) =~= texts(met).push(file@));
                            Action::Analyze(file)
                        }
                    },
                }
            },
        }
    }

    /// Takes what the caller reports and says what it does next: the caller
    /// starts with `Done`, performs each action, and reports again until the
    /// action is `Finished`. Every step but the last leaves less of the run (see
    /// [`less_left`]), so the run ends.
    pub fn next(&mut self, event: Event, index: &Dependencies, include_paths: &Vec<String>) -> (action:
        Action)
        ensures
            (final(self)@, action@) == stepped(old(self)@, event@, index@, texts(include_paths@)),
            old(self)@.visited.no_duplicates() ==> final(self)@.visited.no_duplicates(),
            match action@ {
                ActionView::Analyze(file) => !old(self)@.visited.contains(file)
                    && final(self)@.visited == old(self)@.visited.push(file),
                _ => final(self)@.visited == old(self)@.visited,
            },
            forall|universe: Set<Seq<char>>| #[trigger]
                within(old(self)@, universe, index@) ==> within(final(self)@, universe, index@) && (
                action@ is Finished || less_left(final(self)@, old(self)@, universe)),
    {
        proof {
            if old(self)@.visited.no_duplicates() {
                lemma_visits_once(old(self)@, event@, index@, texts(include_paths@));
            }
            assert forall|universe: Set<Seq<char>>| #[trigger]
                within(old(self)@, universe, index@) implies within(
                stepped(old(self)@, event@, index@, texts(include_paths@)).0,
                universe,
                index@,
            ) && (stepped(old(self)@, event@, index@, texts(include_paths@)).1 is Finished
                || less_left(
                stepped(old(self)@, event@, index@, texts(include_paths@)).0,
                old(self)@,
                universe,
            )) by {
                lemma_less_left(old(self)@, event@, index@, texts(include_paths@), universe);
            }
        }
        let current = self.current.take();
        assert(self@ == (Run { current: None, ..old(self)@ }));
        match current {
            Some(file) => match event {
                Event::Analyzed(unused) => {
                    let files = index.get(file.as_str());
                    self.plan(&unused, &files, include_paths);
                    if unused.len() > 0 {
                        let mut lines: Vec<usize> = Vec::new();
                        let ghost want = lines_of_records(records_of(unused@));
                        let mut i: usize = 0;
                        assert(lines@ =~= want.take(0));
                        while i < unused.len()
                            invariant
                                i <= unused.len(),
                                want == lines_of_records(records_of(unused@)),
                                lines@ == want.take(i as int),
                            decreases unused.len() - i,
                        {
                            lines.push(unused[i].line);
                            assert(want.take(i + 1) =~= want.take(i as int).push(want[i as int]));
                            i += 1;
                        }
                        assert(want.take(i as int) =~= want);
                        Action::Remove(file, lines)
                    } else {
                        self.pop()
                    }
                },
                _ => self.pop(),
            },
            None => self.pop(),
        }
    }
}

} // verus!
