//! The search for project files below a workspace. Reading directories is
//! outside work: the search is told what was read and decides what to do next.
use vstd::prelude::*;
use vstd::string::*;

use crate::text;

verus! {

/// How many directories below the workspace the search goes.
pub const MAX_DEPTH: usize = 6;

/// How many project files the search puts up with.
pub const MAX_PROJECTS: usize = 100;

/// An entry of a directory.
pub enum Entry {
    /// A directory; its name where that is Unicode.
    Directory { name: Option<String> },
    /// A regular file; the extension of its name where it has one that is
    /// Unicode.
    File { extension: Option<String> },
    /// Anything else, such as a symbolic link.
    Other,
}

/// What was read.
pub enum Event {
    /// The next entry of the directory that was entered last.
    Entry(Entry),
    /// The canonical path of the file that was to be resolved: its components,
    /// joined by zero bytes. The order of these byte strings is the order of
    /// the paths.
    Resolved(Vec<u8>),
    /// The directory that was entered last has no more entries.
    End,
}

/// What to read next.
#[derive(Clone, Copy, Debug, PartialEq, Eq, Structural)]
pub enum Action {
    /// Read on in the directory that was entered last.
    Continue,
    /// Enter the directory that was just read.
    Enter,
    /// Find the canonical path of the file that was just read.
    Resolve,
}

/// What came of an event.
pub enum Outcome {
    /// The search goes on.
    Running { search: ProjectSearch, action: Action },
    /// The search is over; it found these paths, in order and each once.
    Finished(Vec<Vec<u8>>),
    /// The search is over; it found too many files.
    Aborted,
}

pub ghost enum EntryModel {
    Directory { name: Option<Seq<char>> },
    File { extension: Option<Seq<char>> },
    Other,
}

pub ghost enum EventModel {
    Entry(EntryModel),
    Resolved(Seq<u8>),
    End,
}

/// A search: how many directories are open and what was found, or how it went.
pub ghost enum SearchModel {
    Running { open: nat, found: Set<Seq<u8>> },
    Finished { found: Set<Seq<u8>> },
    Aborted,
}

pub open spec fn chars(text: Option<String>) -> Option<Seq<char>> {
    match text {
        Some(text) => Some(text@),
        None => None,
    }
}

impl View for Entry {
    type V = EntryModel;

    open spec fn view(&self) -> EntryModel {
        match *self {
            Entry::Directory { name } => EntryModel::Directory { name: chars(name) },
            Entry::File { extension } => EntryModel::File { extension: chars(extension) },
            Entry::Other => EntryModel::Other,
        }
    }
}

impl View for Event {
    type V = EventModel;

    open spec fn view(&self) -> EventModel {
        match *self {
            Event::Entry(entry) => EventModel::Entry(entry@),
            Event::Resolved(path) => EventModel::Resolved(path@),
            Event::End => EventModel::End,
        }
    }
}

/// The directories that the search leaves out.
pub open spec fn is_skipped(name: Option<Seq<char>>) -> bool {
    name == Some(".git"@) || name == Some("node_modules"@) || name == Some("target"@)
}

/// The extension of a project file.
pub open spec fn is_project_extension(extension: Option<Seq<char>>) -> bool {
    match extension {
        Some(extension) => text::same_ignoring_case(extension, "4DProject"@),
        None => false,
    }
}

/// Whether the search enters a directory that it read when so many were open.
pub open spec fn is_entered(name: Option<Seq<char>>, open: nat) -> bool {
    !is_skipped(name) && open <= MAX_DEPTH
}

/// The state of the search after an event.
pub open spec fn next(search: SearchModel, event: EventModel) -> SearchModel {
    match search {
        SearchModel::Running { open, found } => match event {
            EventModel::Entry(EntryModel::Directory { name }) => if is_entered(name, open) {
                SearchModel::Running { open: open + 1, found }
            } else {
                search
            },
            EventModel::Entry(_) => search,
            EventModel::Resolved(path) => SearchModel::Running { open, found: found.insert(path) },
            EventModel::End => if found.len() > MAX_PROJECTS {
                SearchModel::Aborted
            } else if open <= 1 {
                SearchModel::Finished { found }
            } else {
                SearchModel::Running { open: (open - 1) as nat, found }
            },
        },
        _ => search,
    }
}

/// What the search reads next.
pub open spec fn decided(search: SearchModel, event: EventModel) -> Action {
    match event {
        EventModel::Entry(EntryModel::Directory { name }) => if search is Running && is_entered(
            name,
            search->open,
        ) {
            Action::Enter
        } else {
            Action::Continue
        },
        EventModel::Entry(EntryModel::File { extension }) => if is_project_extension(extension) {
            Action::Resolve
        } else {
            Action::Continue
        },
        _ => Action::Continue,
    }
}

/// One path comes before another: at the first byte where they differ, or as
/// its beginning.
pub open spec fn before(a: Seq<u8>, b: Seq<u8>) -> bool
    decreases a.len(),
{
    if a.len() == 0 || b.len() == 0 {
        b.len() > 0
    } else if a[0] == b[0] {
        before(a.skip(1), b.skip(1))
    } else {
        a[0] < b[0]
    }
}

pub open spec fn byte_strings(paths: Seq<Vec<u8>>) -> Seq<Seq<u8>> {
    Seq::new(paths.len(), |i: int| paths[i]@)
}

/// Each path comes before the ones behind it.
pub open spec fn is_sorted(paths: Seq<Seq<u8>>) -> bool {
    forall|i: int, j: int| 0 <= i < j < paths.len() ==> before(#[trigger] paths[i], #[trigger] paths[j])
}

/// Two different paths are in order one way or the other, and not both.
pub proof fn paths_are_ordered(a: Seq<u8>, b: Seq<u8>)
    ensures
        a == b <==> !before(a, b) && !before(b, a),
        !(before(a, b) && before(b, a)),
    decreases a.len(),
{
    if a.len() > 0 && b.len() > 0 {
        paths_are_ordered(a.skip(1), b.skip(1));
        if a[0] == b[0] && a.skip(1) == b.skip(1) {
            assert(a =~= seq![a[0]] + a.skip(1));
            assert(b =~= seq![b[0]] + b.skip(1));
        }
    } else {
        if a.len() == 0 && b.len() == 0 {
            assert(a =~= b);
        }
    }
}

proof fn lemma_before_is_transitive(a: Seq<u8>, b: Seq<u8>, c: Seq<u8>)
    requires
        before(a, b),
        before(b, c),
    ensures
        before(a, c),
    decreases a.len(),
{
    if a.len() > 0 && b.len() > 0 && c.len() > 0 {
        if a[0] == b[0] && b[0] == c[0] {
            lemma_before_is_transitive(a.skip(1), b.skip(1), c.skip(1));
        }
    }
}

/// Whether one path comes before another.
fn comes_before(a: &Vec<u8>, b: &Vec<u8>) -> (result: bool)
    ensures
        result == before(a@, b@),
{
    let mut i: usize = 0;
    assert(a@.skip(0) =~= a@);
    assert(b@.skip(0) =~= b@);
    while i < a.len() && i < b.len() && a[i] == b[i]
        invariant
            i <= a.len(),
            i <= b.len(),
            before(a@, b@) == before(a@.skip(i as int), b@.skip(i as int)),
        decreases a.len() - i,
    {
        assert(a@.skip(i as int).skip(1) =~= a@.skip(i + 1));
        assert(b@.skip(i as int).skip(1) =~= b@.skip(i + 1));
        i = i + 1;
    }
    if i == a.len() || i == b.len() {
        i < b.len()
    } else {
        a[i] < b[i]
    }
}

/// Puts a path in its place, unless it is there already.
fn insert_path(paths: &mut Vec<Vec<u8>>, path: Vec<u8>)
    requires
        is_sorted(byte_strings(old(paths)@)),
    ensures
        is_sorted(byte_strings(final(paths)@)),
        byte_strings(final(paths)@).to_set() == byte_strings(old(paths)@).to_set().insert(path@),
{
    let ghost earlier = byte_strings(paths@);
    let mut i: usize = 0;
    while i < paths.len() && comes_before(&paths[i], &path)
        invariant
            i <= paths.len(),
            earlier == byte_strings(paths@),
            forall|j: int| 0 <= j < i ==> before(#[trigger] earlier[j], path@),
        decreases paths.len() - i,
    {
        i = i + 1;
    }
    if i < paths.len() && !comes_before(&path, &paths[i]) {
        proof {
            paths_are_ordered(earlier[i as int], path@);
            assert(earlier.to_set().insert(path@) =~= earlier.to_set());
        }
        return ;
    }
    let ghost inserted = path@;
    paths.insert(i, path);
    proof {
        let later = byte_strings(paths@);
        assert(later =~= earlier.insert(i as int, inserted));
        lemma_insertion(earlier, i as int, inserted);
    }
}

proof fn lemma_insertion(paths: Seq<Seq<u8>>, at: int, path: Seq<u8>)
    requires
        is_sorted(paths),
        0 <= at <= paths.len(),
        forall|j: int| 0 <= j < at ==> before(#[trigger] paths[j], path),
        at < paths.len() ==> before(path, paths[at]),
    ensures
        is_sorted(paths.insert(at, path)),
        paths.insert(at, path).to_set() == paths.to_set().insert(path),
{
    let later = paths.insert(at, path);
    assert forall|i: int, j: int| 0 <= i < j < later.len() implies before(
        #[trigger] later[i],
        #[trigger] later[j],
    ) by {
        if i == at && j > at + 1 {
            lemma_before_is_transitive(path, paths[at], paths[j - 1]);
        }
    }
    assert forall|p: Seq<u8>| later.to_set().contains(p) == paths.to_set().insert(path).contains(
        p,
    ) by {
        if later.contains(p) {
            let i = choose|i: int| 0 <= i < later.len() && later[i] == p;
            if i < at {
                assert(paths[i] == p);
            } else if i > at {
                assert(paths[i - 1] == p);
            }
        }
        if paths.contains(p) {
            let i = choose|i: int| 0 <= i < paths.len() && paths[i] == p;
            if i < at {
                assert(later[i] == p);
            } else {
                assert(later[i + 1] == p);
            }
        }
        assert(later[at] == path);
    }
    assert(later.to_set() =~= paths.to_set().insert(path));
}

/// Whether a file has the extension of a project.
pub fn has_project_extension(extension: &Option<String>) -> (result: bool)
    ensures
        result == is_project_extension(chars(*extension)),
{
    match extension {
        Some(extension) => text::eq_ignore_ascii_case(extension.as_str(), "4DProject"),
        None => false,
    }
}

/// Whether the search leaves a directory out.
fn has_skipped_name(name: &Option<String>) -> (result: bool)
    ensures
        result == is_skipped(chars(*name)),
{
    match name {
        Some(name) => text::same_text(name.as_str(), ".git") || text::same_text(
            name.as_str(),
            "node_modules",
        ) || text::same_text(name.as_str(), "target"),
        None => false,
    }
}

/// A search for project files, between two events.
pub struct ProjectSearch {
    /// How many directories are open.
    open: usize,
    /// The project files, in order and each once.
    projects: Vec<Vec<u8>>,
}

impl View for ProjectSearch {
    type V = SearchModel;

    closed spec fn view(&self) -> SearchModel {
        SearchModel::Running {
            open: self.open as nat,
            found: byte_strings(self.projects@).to_set(),
        }
    }
}

impl ProjectSearch {
    pub closed spec fn wf(&self) -> bool {
        self.open <= MAX_DEPTH + 1 && is_sorted(byte_strings(self.projects@))
    }

    /// A search that has just entered the workspace.
    pub fn new() -> (search: Self)
        ensures
            search.wf(),
            search@ == (SearchModel::Running { open: 1, found: Set::empty() }),
    {
        let search = ProjectSearch { open: 1, projects: Vec::new() };
        assert(byte_strings(search.projects@).to_set() =~= Set::<Seq<u8>>::empty());
        search
    }

    /// Takes note of what was read and decides what to read next.
    pub fn find_projects(self, event: Event) -> (outcome: Outcome)
        requires
            self.wf(),
        ensures
            match next(self@, event@) {
                SearchModel::Running { .. } => {
                    &&& outcome is Running
                    &&& outcome->search.wf()
                    &&& outcome->search@ == next(self@, event@)
                    &&& outcome->action == decided(self@, event@)
                },
                SearchModel::Finished { found } => {
                    &&& outcome is Finished
                    &&& is_sorted(byte_strings(outcome->Finished_0@))
                    &&& byte_strings(outcome->Finished_0@).to_set() == found
                },
                SearchModel::Aborted => outcome is Aborted,
            },
    {
        let ProjectSearch { open, projects } = self;
        match event {
            Event::Entry(Entry::Directory { name }) => {
                if open <= MAX_DEPTH && !has_skipped_name(&name) {
                    let search = ProjectSearch { open: open + 1, projects };
                    Outcome::Running { search, action: Action::Enter }
                } else {
                    let search = ProjectSearch { open, projects };
                    Outcome::Running { search, action: Action::Continue }
                }
            },
            Event::Entry(Entry::File { extension }) => {
                let search = ProjectSearch { open, projects };
                if has_project_extension(&extension) {
                    Outcome::Running { search, action: Action::Resolve }
                } else {
                    Outcome::Running { search, action: Action::Continue }
                }
            },
            Event::Entry(Entry::Other) => {
                let search = ProjectSearch { open, projects };
                Outcome::Running { search, action: Action::Continue }
            },
            Event::Resolved(path) => {
                let mut projects = projects;
                insert_path(&mut projects, path);
                let search = ProjectSearch { open, projects };
                Outcome::Running { search, action: Action::Continue }
            },
            Event::End => {
                proof {
                    lemma_sorted_paths_differ(byte_strings(projects@));
                }
                if projects.len() > MAX_PROJECTS {
                    Outcome::Aborted
                } else if open <= 1 {
                    Outcome::Finished(projects)
                } else {
                    let search = ProjectSearch { open: open - 1, projects };
                    Outcome::Running { search, action: Action::Continue }
                }
            },
        }
    }
}

proof fn lemma_sorted_paths_differ(paths: Seq<Seq<u8>>)
    requires
        is_sorted(paths),
    ensures
        paths.to_set().len() == paths.len(),
{
    assert forall|i: int, j: int| 0 <= i < paths.len() && 0 <= j < paths.len() && i != j implies paths[i]
        != paths[j] by {
        paths_are_ordered(paths[i], paths[j]);
        if i < j {
            assert(before(paths[i], paths[j]));
        } else {
            assert(before(paths[j], paths[i]));
        }
    }
    paths.unique_seq_to_set();
}

/// What a directory holds.
pub ghost enum Tree {
    Directory { name: Option<Seq<char>>, entries: Seq<Tree> },
    File { extension: Option<Seq<char>>, path: Seq<u8> },
    Other,
}

/// The events of reading one entry, with so many directories open.
pub open spec fn events_of(tree: Tree, open: nat) -> Seq<EventModel>
    decreases tree,
{
    match tree {
        Tree::Directory { name, entries } => if is_entered(name, open) {
            seq![EventModel::Entry(EntryModel::Directory { name })] + events_in(entries, open + 1)
                + seq![EventModel::End]
        } else {
            seq![EventModel::Entry(EntryModel::Directory { name })]
        },
        Tree::File { extension, path } => if is_project_extension(extension) {
            seq![EventModel::Entry(EntryModel::File { extension }), EventModel::Resolved(path)]
        } else {
            seq![EventModel::Entry(EntryModel::File { extension })]
        },
        Tree::Other => seq![EventModel::Entry(EntryModel::Other)],
    }
}

/// The events of reading the entries of a directory, one after the other.
pub open spec fn events_in(entries: Seq<Tree>, open: nat) -> Seq<EventModel>
    decreases entries,
{
    if entries.len() == 0 {
        Seq::empty()
    } else {
        events_in(entries.drop_last(), open) + events_of(entries.last(), open)
    }
}

/// The project files at or below one entry, where so many directories are
/// open.
pub open spec fn projects_of(tree: Tree, open: nat) -> Set<Seq<u8>>
    decreases tree,
{
    match tree {
        Tree::Directory { name, entries } => if is_entered(name, open) {
            projects_in(entries, open + 1)
        } else {
            Set::empty()
        },
        Tree::File { extension, path } => if is_project_extension(extension) {
            set![path]
        } else {
            Set::empty()
        },
        Tree::Other => Set::empty(),
    }
}

/// The project files below a directory.
pub open spec fn projects_in(entries: Seq<Tree>, open: nat) -> Set<Seq<u8>>
    decreases entries,
{
    if entries.len() == 0 {
        Set::empty()
    } else {
        projects_in(entries.drop_last(), open).union(projects_of(entries.last(), open))
    }
}

/// The state of the search after several events.
pub open spec fn run(search: SearchModel, events: Seq<EventModel>) -> SearchModel
    decreases events.len(),
{
    if events.len() == 0 {
        search
    } else {
        next(run(search, events.drop_last()), events.last())
    }
}

proof fn lemma_run_joined(search: SearchModel, a: Seq<EventModel>, b: Seq<EventModel>)
    ensures
        run(search, a + b) == run(run(search, a), b),
    decreases b.len(),
{
    if b.len() == 0 {
        assert(a + b =~= a);
    } else {
        lemma_run_joined(search, a, b.drop_last());
        assert((a + b).drop_last() =~= a + b.drop_last());
    }
}

proof fn lemma_run_aborted(events: Seq<EventModel>)
    ensures
        run(SearchModel::Aborted, events) == SearchModel::Aborted,
    decreases events.len(),
{
    if events.len() > 0 {
        lemma_run_aborted(events.drop_last());
    }
}

/// The search has found these files, or has given up over them.
pub open spec fn has_found(search: SearchModel, open: nat, found: Set<Seq<u8>>) -> bool {
    search == (SearchModel::Running { open, found }) || (search == SearchModel::Aborted
        && found.len() > MAX_PROJECTS)
}

proof fn lemma_entry_is_searched(tree: Tree, open: nat, found: Set<Seq<u8>>)
    requires
        open > 0,
        found.finite(),
    ensures
        projects_of(tree, open).finite(),
        has_found(
            run(SearchModel::Running { open, found }, events_of(tree, open)),
            open,
            found.union(projects_of(tree, open)),
        ),
    decreases tree,
{
    let start = SearchModel::Running { open, found };
    reveal_with_fuel(run, 3);
    match tree {
        Tree::Directory { name, entries } => {
            let first = seq![EventModel::Entry(EntryModel::Directory { name })];
            assert(first.drop_last() =~= Seq::empty());
            assert(run(start, first) == next(start, first[0]));
            if is_entered(name, open) {
                let inner = events_in(entries, open + 1);
                let last = seq![EventModel::End];
                lemma_entries_are_searched(entries, open + 1, found);
                lemma_run_joined(start, first, inner);
                lemma_run_joined(start, first + inner, last);
                assert(last.drop_last() =~= Seq::empty());
            } else {
                assert(found.union(Set::empty()) =~= found);
            }
        },
        Tree::File { extension, path } => {
            let entry = EventModel::Entry(EntryModel::File { extension });
            if is_project_extension(extension) {
                let both = seq![entry, EventModel::Resolved(path)];
                assert(both.drop_last() =~= seq![entry]);
                assert(seq![entry].drop_last() =~= Seq::empty());
                assert(found.union(set![path]) =~= found.insert(path));
            } else {
                assert(seq![entry].drop_last() =~= Seq::empty());
                assert(found.union(Set::empty()) =~= found);
            }
        },
        Tree::Other => {
            let only = seq![EventModel::Entry(EntryModel::Other)];
            assert(only.drop_last() =~= Seq::empty());
            assert(found.union(Set::empty()) =~= found);
        },
    }
}

proof fn lemma_entries_are_searched(entries: Seq<Tree>, open: nat, found: Set<Seq<u8>>)
    requires
        open > 0,
        found.finite(),
    ensures
        projects_in(entries, open).finite(),
        has_found(
            run(SearchModel::Running { open, found }, events_in(entries, open)),
            open,
            found.union(projects_in(entries, open)),
        ),
    decreases entries,
{
    let start = SearchModel::Running { open, found };
    if entries.len() == 0 {
        assert(found.union(Set::empty()) =~= found);
    } else {
        let earlier = entries.drop_last();
        let before_last = found.union(projects_in(earlier, open));
        lemma_entries_are_searched(earlier, open, found);
        lemma_entry_is_searched(entries.last(), open, before_last);
        lemma_run_joined(start, events_in(earlier, open), events_of(entries.last(), open));
        let all = found.union(projects_in(entries, open));
        assert(all =~= before_last.union(projects_of(entries.last(), open)));
        vstd::set_lib::lemma_len_subset(before_last, all);
        lemma_run_aborted(events_of(entries.last(), open));
    }
}

/// The search finds every project file of the workspace that it is meant to
/// find and no other file, or gives up because there are too many.
pub proof fn the_search_is_complete(entries: Seq<Tree>)
    ensures
        run(
            SearchModel::Running { open: 1, found: Set::empty() },
            events_in(entries, 1).push(EventModel::End),
        ) == (if projects_in(entries, 1).len() > MAX_PROJECTS {
            SearchModel::Aborted
        } else {
            SearchModel::Finished { found: projects_in(entries, 1) }
        }),
{
    let events = events_in(entries, 1);
    lemma_entries_are_searched(entries, 1, Set::empty());
    assert(Set::empty().union(projects_in(entries, 1)) =~= projects_in(entries, 1));
    assert(events.push(EventModel::End).drop_last() =~= events);
}

/// A tree that is read as the search asks for it: a directory is entered where
/// the search decides to enter it, a file is resolved where it decides to
/// resolve it, and everything else is passed over.
pub open spec fn driven(search: SearchModel, tree: Tree) -> SearchModel
    decreases tree,
{
    match tree {
        Tree::Directory { name, entries } => {
            let event = EventModel::Entry(EntryModel::Directory { name });
            let after = next(search, event);
            if decided(search, event) == Action::Enter {
                next(driven_through(after, entries), EventModel::End)
            } else {
                after
            }
        },
        Tree::File { extension, path } => {
            let event = EventModel::Entry(EntryModel::File { extension });
            let after = next(search, event);
            if decided(search, event) == Action::Resolve {
                next(after, EventModel::Resolved(path))
            } else {
                after
            }
        },
        Tree::Other => next(search, EventModel::Entry(EntryModel::Other)),
    }
}

/// The entries of a directory, read one after the other as the search asks.
pub open spec fn driven_through(search: SearchModel, entries: Seq<Tree>) -> SearchModel
    decreases entries,
{
    if entries.len() == 0 {
        search
    } else {
        driven(driven_through(search, entries.drop_last()), entries.last())
    }
}

proof fn lemma_driven(tree: Tree, open: nat, found: Set<Seq<u8>>)
    requires
        open > 0,
        found.finite(),
    ensures
        projects_of(tree, open).finite(),
        has_found(
            driven(SearchModel::Running { open, found }, tree),
            open,
            found.union(projects_of(tree, open)),
        ),
    decreases tree,
{
    let start = SearchModel::Running { open, found };
    match tree {
        Tree::Directory { name, entries } => {
            if is_entered(name, open) {
                lemma_driven_through(entries, open + 1, found);
            } else {
                assert(found.union(Set::empty()) =~= found);
            }
        },
        Tree::File { extension, path } => {
            if is_project_extension(extension) {
                assert(found.union(set![path]) =~= found.insert(path));
            } else {
                assert(found.union(Set::empty()) =~= found);
            }
        },
        Tree::Other => {
            assert(found.union(Set::empty()) =~= found);
        },
    }
}

proof fn lemma_driven_through(entries: Seq<Tree>, open: nat, found: Set<Seq<u8>>)
    requires
        open > 0,
        found.finite(),
    ensures
        projects_in(entries, open).finite(),
        has_found(
            driven_through(SearchModel::Running { open, found }, entries),
            open,
            found.union(projects_in(entries, open)),
        ),
    decreases entries,
{
    if entries.len() == 0 {
        assert(found.union(Set::empty()) =~= found);
    } else {
        let earlier = entries.drop_last();
        let before_last = found.union(projects_in(earlier, open));
        lemma_driven_through(earlier, open, found);
        lemma_driven(entries.last(), open, before_last);
        let all = found.union(projects_in(entries, open));
        assert(all =~= before_last.union(projects_of(entries.last(), open)));
        vstd::set_lib::lemma_len_subset(before_last, all);
        lemma_aborted_stays(entries.last());
    }
}

proof fn lemma_aborted_stays(tree: Tree)
    ensures
        driven(SearchModel::Aborted, tree) == SearchModel::Aborted,
    decreases tree,
{
    if let Tree::Directory { name, entries } = tree {
        lemma_aborted_stays_through(entries);
    }
}

proof fn lemma_aborted_stays_through(entries: Seq<Tree>)
    ensures
        driven_through(SearchModel::Aborted, entries) == SearchModel::Aborted,
    decreases entries,
{
    if entries.len() > 0 {
        lemma_aborted_stays_through(entries.drop_last());
        lemma_aborted_stays(entries.last());
    }
}

/// Letters may be large or small in the extension of a project.
pub open spec fn spells_project(extension: Option<Seq<char>>) -> bool {
    extension matches Some(text) && text.len() == 9 && text[0] == '4' && (text[1] == 'D' || text[1]
        == 'd') && (text[2] == 'P' || text[2] == 'p') && (text[3] == 'R' || text[3] == 'r') && (
    text[4] == 'O' || text[4] == 'o') && (text[5] == 'J' || text[5] == 'j') && (text[6] == 'E'
        || text[6] == 'e') && (text[7] == 'C' || text[7] == 'c') && (text[8] == 'T' || text[8]
        == 't')
}

/// The extension of a project is `4DProject`, in any case.
pub proof fn a_project_is_told_by_its_extension(extension: Option<Seq<char>>)
    ensures
        is_project_extension(extension) <==> spells_project(extension),
{
    reveal_strlit("4DProject");
    let plain = "4DProject"@;
    assert(plain.len() == 9 && plain[0] == '4' && plain[1] == 'D' && plain[2] == 'P' && plain[3]
        == 'r' && plain[4] == 'o' && plain[5] == 'j' && plain[6] == 'e' && plain[7] == 'c'
        && plain[8] == 't');
    if let Some(text) = extension {
        text::case_is_all_that_is_ignored(text, plain);
        if is_project_extension(extension) {
            assert(text[0] == plain[0] && text.len() == 9) by {
                assert(text::lower(text[0]) == text::lower(plain[0]));
            }
            assert forall|i: int| 0 <= i < 9 implies text::lower(text[i]) == text::lower(
                #[trigger] plain[i],
            ) by {}
        }
        if spells_project(extension) {
            assert forall|i: int| 0 <= i < text.len() implies text::lower(#[trigger] text[i])
                == text::lower(plain[i]) by {
                assert(i == 0 || i == 1 || i == 2 || i == 3 || i == 4 || i == 5 || i == 6 || i == 7
                    || i == 8);
            }
        }
    }
}

/// The path stands in the tree at this place: the place names the entry to
/// take in the workspace, then the one in the directory that it leads to, and
/// so on down to a project file. None of the directories on the way is one of
/// those that are left out.
pub open spec fn stands_at(entries: Seq<Tree>, place: Seq<int>, path: Seq<u8>) -> bool
    decreases place.len(),
{
    place.len() > 0 && 0 <= place[0] < entries.len() && match entries[place[0]] {
        Tree::Directory { name, entries: inner } => name != Some(".git"@) && name != Some(
            "node_modules"@,
        ) && name != Some("target"@) && stands_at(inner, place.skip(1), path),
        Tree::File { extension, path: own } => place.len() == 1 && own == path && spells_project(
            extension,
        ),
        Tree::Other => false,
    }
}

/// The project files that the search finds are those that stand in the
/// workspace or up to so many directories below it.
proof fn lemma_found_stands(entries: Seq<Tree>, open: nat, path: Seq<u8>) -> (place: Seq<int>)
    requires
        projects_in(entries, open).contains(path),
        1 <= open <= 7,
    ensures
        stands_at(entries, place, path),
        place.len() + open <= 8,
    decreases entries,
{
    reveal_with_fuel(projects_in, 2);
    reveal_with_fuel(projects_of, 2);
    reveal_with_fuel(stands_at, 2);
    let earlier = entries.drop_last();
    if projects_in(earlier, open).contains(path) {
        let place = lemma_found_stands(earlier, open, path);
        assert(earlier[place[0]] == entries[place[0]]);
        place
    } else {
        let last = entries.len() - 1;
        match entries.last() {
            Tree::Directory { name, entries: inner } => {
                let below = lemma_found_stands(inner, open + 1, path);
                let place = seq![last] + below;
                assert(place.skip(1) =~= below);
                place
            },
            Tree::File { extension, path: own } => {
                a_project_is_told_by_its_extension(extension);
                seq![last]
            },
            Tree::Other => seq![last],
        }
    }
}

proof fn lemma_entry_is_included(entries: Seq<Tree>, open: nat, i: int, path: Seq<u8>)
    requires
        0 <= i < entries.len(),
        projects_of(entries[i], open).contains(path),
    ensures
        projects_in(entries, open).contains(path),
    decreases entries.len(),
{
    if i < entries.len() - 1 {
        assert(entries.drop_last()[i] == entries[i]);
        lemma_entry_is_included(entries.drop_last(), open, i, path);
    } else {
        assert(entries.last() == entries[i]);
    }
}

proof fn lemma_standing_is_found(entries: Seq<Tree>, open: nat, place: Seq<int>, path: Seq<u8>)
    requires
        stands_at(entries, place, path),
        1 <= open,
        place.len() + open <= 8,
    ensures
        projects_in(entries, open).contains(path),
    decreases place.len(),
{
    reveal_with_fuel(projects_of, 2);
    reveal_with_fuel(stands_at, 2);
    match entries[place[0]] {
        Tree::Directory { name, entries: inner } => {
            assert(place.skip(1).len() > 0);
            lemma_standing_is_found(inner, open + 1, place.skip(1), path);
        },
        Tree::File { extension, path: own } => {
            a_project_is_told_by_its_extension(extension);
        },
        Tree::Other => {},
    }
    lemma_entry_is_included(entries, open, place[0], path);
}

/// A search that is driven through a workspace, reading what it asks to be
/// read, finds a path exactly where a project file with that path stands in the
/// workspace or at most six directories below it, outside the directories that
/// are left out. It gives up exactly where there are more than a hundred.
pub proof fn a_driven_search_finds_the_projects(entries: Seq<Tree>)
    ensures
        ({
            let end = next(
                driven_through(SearchModel::Running { open: 1, found: Set::empty() }, entries),
                EventModel::End,
            );
            let found = Set::new(
                |p: Seq<u8>|
                    exists|place: Seq<int>|
                        place.len() <= 7 && #[trigger] stands_at(entries, place, p),
            );
            &&& found.finite()
            &&& found.len() > 100 ==> end == SearchModel::Aborted
            &&& found.len() <= 100 ==> end == (SearchModel::Finished { found })
        }),
{
    let found = Set::new(
        |p: Seq<u8>|
            exists|place: Seq<int>| place.len() <= 7 && #[trigger] stands_at(entries, place, p),
    );
    let projects = projects_in(entries, 1);
    assert forall|p: Seq<u8>| projects.contains(p) == found.contains(p) by {
        if projects.contains(p) {
            let place = lemma_found_stands(entries, 1, p);
        }
        if found.contains(p) {
            let place = choose|place: Seq<int>|
                place.len() <= 7 && #[trigger] stands_at(entries, place, p);
            lemma_standing_is_found(entries, 1, place, p);
        }
    }
    assert(projects =~= found);
    lemma_driven_through(entries, 1, Set::empty());
    assert(Set::empty().union(projects) =~= projects);
}

/// One path comes before another where it is the beginning of a longer one, or
/// has the smaller byte at the first place where the two differ.
pub proof fn paths_are_ordered_by_their_bytes(a: Seq<u8>, b: Seq<u8>)
    ensures
        before(a, b) <==> (a.len() < b.len() && b.take(a.len() as int) == a) || exists|k: int|
            0 <= k < a.len() && k < b.len() && a.take(k) == #[trigger] b.take(k) && a[k] < b[k],
    decreases a.len(),
{
    let is_prefix = a.len() < b.len() && b.take(a.len() as int) == a;
    if a.len() == 0 {
        assert(b.take(0) =~= a);
    } else if b.len() > 0 {
        let x = a.skip(1);
        let y = b.skip(1);
        paths_are_ordered_by_their_bytes(x, y);
        if a[0] == b[0] {
            if before(x, y) {
                if x.len() < y.len() && y.take(x.len() as int) == x {
                    assert(b.take(a.len() as int) =~= a) by {
                        assert forall|i: int| 0 <= i < a.len() implies b[i] == a[i] by {
                            if i > 0 {
                                assert(y.take(x.len() as int)[i - 1] == x[i - 1]);
                            }
                        }
                    }
                } else {
                    let k = choose|k: int|
                        0 <= k < x.len() && k < y.len() && x.take(k) == #[trigger] y.take(k) && x[k]
                            < y[k];
                    assert(a.take(k + 1) =~= b.take(k + 1)) by {
                        assert forall|i: int| 0 <= i < k + 1 implies a[i] == b[i] by {
                            if i > 0 {
                                assert(x.take(k)[i - 1] == y.take(k)[i - 1]);
                            }
                        }
                    }
                    assert(a[k + 1] < b[k + 1]);
                }
            }
            if is_prefix {
                assert(y.take(x.len() as int) =~= x) by {
                    assert forall|i: int| 0 <= i < x.len() implies y[i] == x[i] by {
                        assert(b.take(a.len() as int)[i + 1] == a[i + 1]);
                    }
                }
            }
            if exists|k: int|
                0 <= k < a.len() && k < b.len() && a.take(k) == #[trigger] b.take(k) && a[k]
                    < b[k] {
                let k = choose|k: int|
                    0 <= k < a.len() && k < b.len() && a.take(k) == #[trigger] b.take(k) && a[k]
                        < b[k];
                assert(k > 0);
                assert(x.take(k - 1) =~= y.take(k - 1)) by {
                    assert forall|i: int| 0 <= i < k - 1 implies x[i] == y[i] by {
                        assert(a.take(k)[i + 1] == b.take(k)[i + 1]);
                    }
                }
                assert(x[k - 1] < y[k - 1]);
            }
        } else {
            if a[0] < b[0] {
                assert(a.take(0) =~= b.take(0));
            }
            if is_prefix {
                assert(b.take(a.len() as int)[0] == a[0]);
            }
            if exists|k: int|
                0 <= k < a.len() && k < b.len() && a.take(k) == #[trigger] b.take(k) && a[k]
                    < b[k] {
                let k = choose|k: int|
                    0 <= k < a.len() && k < b.len() && a.take(k) == #[trigger] b.take(k) && a[k]
                        < b[k];
                if k > 0 {
                    assert(a.take(k)[0] == b.take(k)[0]);
                }
            }
        }
    }
}

/// Entries, events and paths are seen as they are, with every text in full.
pub proof fn events_are_seen_as_they_are(entry: Entry, event: Event, paths: Seq<Vec<u8>>)
    ensures
        match entry {
            Entry::Directory { name: Some(name) } => entry@ == (EntryModel::Directory {
                name: Some(name@),
            }),
            Entry::Directory { name: None } => entry@ == (EntryModel::Directory { name: None }),
            Entry::File { extension: Some(extension) } => entry@ == (EntryModel::File {
                extension: Some(extension@),
            }),
            Entry::File { extension: None } => entry@ == (EntryModel::File { extension: None }),
            Entry::Other => entry@ == EntryModel::Other,
        },
        match event {
            Event::Entry(entry) => event@ == EventModel::Entry(entry@),
            Event::Resolved(path) => event@ == EventModel::Resolved(path@),
            Event::End => event@ == EventModel::End,
        },
        byte_strings(paths).len() == paths.len(),
        forall|i: int| 0 <= i < paths.len() ==> #[trigger] byte_strings(paths)[i] == paths[i]@,
{
}

/// In order means that each path comes before every path behind it, so that
/// none stands twice.
pub proof fn ordered_paths_differ(paths: Seq<Seq<u8>>, i: int, j: int)
    requires
        is_sorted(paths),
        0 <= i < j < paths.len(),
    ensures
        paths[i] != paths[j],
        !before(paths[j], paths[i]),
{
    paths_are_ordered(paths[i], paths[j]);
    assert(before(paths[i], paths[j]));
}

} // verus!
