//! The walker: goes through a directory tree depth first, counts what it
//! meets, and tells an observer of each directory it enters and of each file
//! whose extension is asked for.

use crate::text::{extension_of, path_extension};
use crate::tree::{lemma_listing_view, Entry, FileEntry, FileView, Location, TreeView};
use crate::walk::{
    descend, files_among, files_below, dirs_below, intact, lemma_descend_stuck, lemma_scan_stuck,
    lemma_walk_counts, listed, reported, scan, walk, DirNote, Fault, Walk, NOT_A_DIRECTORY,
};
use vstd::prelude::*;

verus! {

broadcast use vstd::std_specs::vec::axiom_vec_index_decreases;

/// An observer of the walker.
///
/// What an observer makes of what it is told is described by a model: a
/// mathematical value that stands for its state, and a function for each
/// notification that gives the model after it. The walker's contract then says
/// in which state it leaves the observer. An observer that nobody reasons
/// about takes `()` as its model and leaves the four spec functions as they
/// are.
pub trait DirEvent: Sized {
    /// The mathematical form of the observer's state.
    type Model;

    /// The state of this observer.
    open spec fn model(&self) -> Self::Model {
        arbitrary()
    }

    /// The state of a new observer.
    open spec fn fresh() -> Self::Model {
        arbitrary()
    }

    /// The state after a directory was entered.
    open spec fn after_dir(before: Self::Model, dir: Seq<char>) -> Self::Model {
        before
    }

    /// The state after a file was reported.
    open spec fn after_file(before: Self::Model, file: FileView) -> Self::Model {
        before
    }

    /// A new observer.
    fn new() -> (observer: Self)
        ensures
            observer.model() == Self::fresh(),
    ;

    /// The walker has entered the directory `dir`.
    fn do_dir(&mut self, dir: &str)
        ensures
            final(self).model() == Self::after_dir(old(self).model(), dir@),
    ;

    /// The walker has found `file` in the directory it entered last.
    fn do_file(&mut self, file: &FileEntry)
        ensures
            final(self).model() == Self::after_file(old(self).model(), file@),
    ;
}

/// The state of an observer after it was told `notes`, one after the other.
pub open spec fn replay<App: DirEvent>(before: App::Model, notes: Seq<DirNote>) -> App::Model
    decreases notes.len(),
{
    if notes.len() == 0 {
        before
    } else {
        let prior = replay::<App>(before, notes.drop_last());
        match notes.last() {
            DirNote::Dir(dir) => App::after_dir(prior, dir),
            DirNote::File(file) => App::after_file(prior, file),
        }
    }
}

/// Telling an observer nothing leaves it as it is.
pub proof fn lemma_replay_empty<App: DirEvent>(before: App::Model)
    ensures
        replay::<App>(before, Seq::empty()) == before,
{
}

/// Telling an observer two runs of notes in turn is telling it their
/// concatenation.
pub proof fn lemma_replay_concat<App: DirEvent>(
    before: App::Model,
    first: Seq<DirNote>,
    second: Seq<DirNote>,
)
    ensures
        replay::<App>(before, first + second) == replay::<App>(
            replay::<App>(before, first),
            second,
        ),
    decreases second.len(),
{
    if second.len() == 0 {
        assert(first + second =~= first);
    } else {
        assert((first + second).drop_last() =~= first + second.drop_last());
        lemma_replay_concat::<App>(before, first, second.drop_last());
    }
}

/// Why a walk ended early.
#[derive(Debug, PartialEq, Eq)]
pub enum WalkError {
    /// The path that was to be walked is no directory.
    NotADirectory,
    /// Listing a directory broke off, for the reason given.
    Enumeration(String),
}

impl View for WalkError {
    type V = Fault;

    open spec fn view(&self) -> Fault {
        match self {
            WalkError::NotADirectory => Fault::NotADirectory,
            WalkError::Enumeration(reason) => Fault::Enumeration(reason@),
        }
    }
}

impl WalkError {
    /// What the error says: for a listing that broke off, the reason.
    pub fn message(&self) -> (message: String)
        ensures
            message@ == self@.text(),
    {
        match self {
            WalkError::NotADirectory => NOT_A_DIRECTORY.to_owned(),
            WalkError::Enumeration(reason) => reason.clone(),
        }
    }
}

/// A counter that has reached the largest number stays there.
pub open spec fn capped(count: int) -> usize {
    if count <= usize::MAX {
        count as usize
    } else {
        usize::MAX
    }
}

/// The mathematical form of a walker.
pub struct NavModel<M> {
    /// The extensions that are asked for; none means every file.
    pub patterns: Seq<Seq<char>>,
    /// Whether sub-directories are walked too.
    pub recurse: bool,
    /// How many directories were entered.
    pub dirs: usize,
    /// How many files were met, reported or not.
    pub files: usize,
    /// The state of the observer.
    pub app: M,
}

/// A walker without patterns, with a new observer, that has met nothing and
/// does not walk sub-directories.
pub open spec fn initial<App: DirEvent>() -> NavModel<App::Model> {
    NavModel { patterns: Seq::empty(), recurse: false, dirs: 0, files: 0, app: App::fresh() }
}

/// The walker after `walk`: the observer has been told its notes, and the
/// counters have gone up by what it met.
pub open spec fn advanced<App: DirEvent>(before: NavModel<App::Model>, walk: Walk) -> NavModel<
    App::Model,
> {
    NavModel {
        dirs: capped(before.dirs + walk.dirs),
        files: capped(before.files + walk.files),
        app: replay::<App>(before.app, walk.notes),
        ..before
    }
}

/// The walker after it was sent to `dir`.
pub open spec fn visited<App: DirEvent>(before: NavModel<App::Model>, tree: TreeView) -> NavModel<
    App::Model,
> {
    advanced::<App>(before, walk(tree, before.patterns, before.recurse))
}

/// Two walks in turn leave the walker as the two taken together do.
pub proof fn lemma_advanced_twice<App: DirEvent>(
    before: NavModel<App::Model>,
    first: Walk,
    second: Walk,
)
    ensures
        advanced::<App>(advanced::<App>(before, first), second) == advanced::<App>(
            before,
            first.followed_by(second),
        ),
{
    lemma_replay_concat::<App>(before.app, first.notes, second.notes);
}

/// The walker. It holds the extensions that are asked for, the observer, and
/// the counts of what it has met.
pub struct DirNav<App: DirEvent> {
    patterns: Vec<String>,
    app: App,
    num_file: usize,
    num_dirs: usize,
    recurse: bool,
}

impl<App: DirEvent> View for DirNav<App> {
    type V = NavModel<App::Model>;

    closed spec fn view(&self) -> NavModel<App::Model> {
        NavModel {
            patterns: self.patterns.deep_view(),
            recurse: self.recurse,
            dirs: self.num_dirs,
            files: self.num_file,
            app: self.app.model(),
        }
    }
}

impl<App: DirEvent> DirNav<App> {
    /// A walker without patterns, with a new observer, that has met nothing
    /// and does not walk sub-directories.
    pub fn new() -> (nav: Self)
        ensures
            nav@ == initial::<App>(),
    {
        let nav = DirNav {
            patterns: Vec::new(),
            app: App::new(),
            num_file: 0,
            num_dirs: 0,
            recurse: false,
        };
        assert(nav.patterns.deep_view() =~= Seq::empty());
        nav
    }

    /// Asks for the files with the extension `pattern`, written without a dot.
    pub fn add_patterns(&mut self, pattern: &str)
        ensures
            final(self)@ == (NavModel::<App::Model> {
                patterns: old(self)@.patterns.push(pattern@),
                ..old(self)@
            }),
    {
        self.patterns.push(pattern.to_owned());
        assert(self.patterns.deep_view() =~= old(self).patterns.deep_view().push(pattern@));
    }

    /// The extensions that are asked for, to read and to change.
    pub fn get_patterns(&mut self) -> (patterns: &mut Vec<String>)
        ensures
            patterns.deep_view() == old(self)@.patterns,
            final(self)@ == (NavModel::<App::Model> {
                patterns: final(patterns).deep_view(),
                ..old(self)@
            }),
    {
        &mut self.patterns
    }

    /// The observer, to read and to change.
    pub fn get_app(&mut self) -> (app: &mut App)
        ensures
            app.model() == old(self)@.app,
            final(self)@ == (NavModel::<App::Model> { app: final(app).model(), ..old(self)@ }),
    {
        &mut self.app
    }

    /// How many files were met, reported or not.
    pub fn get_number_of_files_processed(&self) -> (count: usize)
        ensures
            count == self@.files,
    {
        self.num_file
    }

    /// How many directories were entered.
    pub fn get_number_of_dirs_processed(&self) -> (count: usize)
        ensures
            count == self@.dirs,
    {
        self.num_dirs
    }

    /// Whether sub-directories are walked too.
    pub fn is_recursive(&self) -> (answer: bool)
        ensures
            answer == self@.recurse,
    {
        self.recurse
    }

    /// From now on sub-directories are walked too.
    pub fn set_recursive_search(&mut self)
        ensures
            final(self)@ == (NavModel::<App::Model> { recurse: true, ..old(self)@ }),
    {
        self.recurse = true;
    }

    /// Back to the state of a new walker, with a new observer.
    pub fn reset(&mut self)
        ensures
            final(self)@ == initial::<App>(),
    {
        self.patterns.clear();
        self.app = App::new();
        self.num_file = 0;
        self.num_dirs = 0;
        self.recurse = false;
        assert(self.patterns.deep_view() =~= Seq::empty());
    }

    /// Whether `extension` is one of the extensions that are asked for.
    pub fn lists_extension(&self, extension: &Option<String>) -> (answer: bool)
        ensures
            answer == listed(extension.deep_view(), self@.patterns),
    {
        match extension {
            None => false,
            Some(wanted) => {
                let mut at: usize = 0;
                while at < self.patterns.len()
                    invariant
                        at <= self.patterns.len(),
                        *extension == Some(*wanted),
                        forall|i: int|
                            0 <= i < at ==> #[trigger] self.patterns.deep_view()[i] != wanted@,
                    decreases self.patterns.len() - at,
                {
                    if self.patterns[at] == *wanted {
                        assert(self@.patterns[at as int] == wanted@);
                        return true;
                    }
                    at = at + 1;
                }
                false
            },
        }
    }

    /// Whether the extension of `file` is one of the extensions that are
    /// asked for. A name without extension has none of them.
    pub fn has_pattern(&self, file: &FileEntry) -> (answer: bool)
        ensures
            answer == listed(path_extension(file.name@), self@.patterns),
    {
        let extension = extension_of(file.name.as_str());
        self.lists_extension(&extension)
    }

    /// Whether a file is reported to the observer: there are no patterns, or
    /// its extension is among them.
    pub fn reports(&self, file: &FileEntry) -> (answer: bool)
        ensures
            answer == reported(file.name@, self@.patterns),
    {
        self.patterns.is_empty() || self.has_pattern(file)
    }

    /// Walks `dir`, depth first. A path that is no directory is refused
    /// before the observer hears of it. Else the observer is told that the
    /// directory was entered; each entry that is no directory is counted, and
    /// reported to the observer if there are no patterns or its extension is
    /// among them; then, if sub-directories are to be walked, each is walked
    /// in the same way, in the order in which they were listed. The first
    /// failure ends the walk. The counters stop at the largest number.
    pub fn visit(&mut self, dir: &Location) -> (outcome: Result<(), WalkError>)
        ensures
            final(self)@ == visited::<App>(old(self)@, dir@),
            match walk(dir@, old(self)@.patterns, old(self)@.recurse).fault {
                None => outcome is Ok,
                Some(fault) => outcome is Err && outcome->Err_0@ == fault,
            },
        decreases *dir,
    {
        let ghost start = self@;
        let ghost patterns = start.patterns;
        proof {
            lemma_replay_empty::<App>(start.app);
        }
        let entries = match &dir.listing {
            None => {
                return Err(WalkError::NotADirectory);
            },
            Some(entries) => entries,
        };
        proof {
            lemma_listing_view(entries@);
        }
        let ghost listing = dir@.listing->0;
        self.app.do_dir(dir.path.as_str());
        self.num_dirs = self.num_dirs.saturating_add(1);
        let ghost entering = Walk::entering(dir.path@);
        proof {
            assert(entering.notes.drop_last() =~= Seq::empty());
        }
        let mut at: usize = 0;
        while at < entries.len()
            invariant
                at <= entries.len(),
                listing.len() == entries.len(),
                forall|i: int| 0 <= i < entries.len() ==> listing[i] == (#[trigger] entries[i])@,
                start == old(self)@,
                patterns == start.patterns,
                dir@.path == dir.path@,
                dir@.listing == Some(listing),
                entering == Walk::entering(dir.path@),
                scan(listing.take(at as int), patterns).fault is None,
                self@ == advanced::<App>(
                    start,
                    entering.followed_by(scan(listing.take(at as int), patterns)),
                ),
            decreases entries.len() - at,
        {
            let ghost before = scan(listing.take(at as int), patterns);
            let ghost after = scan(listing.take(at + 1), patterns);
            proof {
                assert(listing.take(at + 1).drop_last() =~= listing.take(at as int));
            }
            match &entries[at] {
                Entry::File(file) => {
                    self.num_file = self.num_file.saturating_add(1);
                    if self.reports(file) {
                        self.app.do_file(file);
                        proof {
                            let told = entering.followed_by(after).notes;
                            assert(told.drop_last() =~= entering.followed_by(before).notes);
                        }
                    }
                },
                Entry::Dir(_) => {},
                Entry::Failed(reason) => {
                    proof {
                        lemma_scan_stuck(listing, patterns, at + 1);
                    }
                    return Err(WalkError::Enumeration(reason.clone()));
                },
            }
            at = at + 1;
        }
        assert(listing.take(at as int) =~= listing);
        let ghost here = entering.followed_by(scan(listing, patterns));
        if self.recurse {
            let mut at: usize = 0;
            while at < entries.len()
                invariant
                    at <= entries.len(),
                    dir.listing == Some(*entries),
                    listing.len() == entries.len(),
                    forall|i: int|
                        0 <= i < entries.len() ==> listing[i] == (#[trigger] entries[i])@,
                    start == old(self)@,
                    start.recurse,
                    dir@.path == dir.path@,
                    patterns == start.patterns,
                    dir@.listing == Some(listing),
                    here == Walk::entering(dir.path@).followed_by(scan(listing, patterns)),
                    here.fault is None,
                    descend(listing.take(at as int), patterns).fault is None,
                    self@ == advanced::<App>(
                        start,
                        here.followed_by(descend(listing.take(at as int), patterns)),
                    ),
                decreases entries.len() - at,
            {
                let ghost before = descend(listing.take(at as int), patterns);
                proof {
                    assert(listing.take(at + 1).drop_last() =~= listing.take(at as int));
                }
                match &entries[at] {
                    Entry::Dir(sub) => {
                        let ghost inner = walk(sub@, patterns, true);
                        let walked = self.visit(sub);
                        proof {
                            lemma_advanced_twice::<App>(start, here.followed_by(before), inner);
                            assert(here.followed_by(before).followed_by(inner).notes
                                =~= here.followed_by(before.followed_by(inner)).notes);
                        }
                        match walked {
                            Err(error) => {
                                proof {
                                    lemma_descend_stuck(listing, patterns, at + 1);
                                }
                                return Err(error);
                            },
                            Ok(()) => {},
                        }
                    },
                    _ => {},
                }
                at = at + 1;
            }
        }
        Ok(())
    }
}

impl<App: DirEvent> Default for DirNav<App> {
    /// A new walker.
    fn default() -> (nav: Self)
        ensures
            nav@ == initial::<App>(),
    {
        Self::new()
    }
}

/// A walker that was reset walks as a new one does.
pub proof fn lemma_reset_walks_as_new<App: DirEvent>(
    fresh: NavModel<App::Model>,
    reset: NavModel<App::Model>,
    tree: TreeView,
)
    requires
        fresh == initial::<App>(),
        reset == initial::<App>(),
    ensures
        visited::<App>(reset, tree) == visited::<App>(fresh, tree),
        walk(tree, reset.patterns, reset.recurse) == walk(tree, Seq::empty(), false),
{
}

/// After a walk of an intact tree the counters have gone up, unless they
/// would pass the largest number: without recursion by one directory and by
/// the files that are entries of the root, with recursion by the directories
/// and by the files of the whole tree.
pub proof fn lemma_visit_counts<App: DirEvent>(before: NavModel<App::Model>, tree: TreeView)
    requires
        intact(tree),
        before.dirs + dirs_below(tree) <= usize::MAX,
        before.files + files_below(tree) <= usize::MAX,
    ensures
        !before.recurse ==> visited::<App>(before, tree).dirs == before.dirs + 1,
        !before.recurse ==> visited::<App>(before, tree).files == before.files + files_among(
            tree.listing->0,
        ),
        before.recurse ==> visited::<App>(before, tree).dirs == before.dirs + dirs_below(tree),
        before.recurse ==> visited::<App>(before, tree).files == before.files + files_below(tree),
{
    lemma_walk_counts(tree, before.patterns);
}

} // verus!
