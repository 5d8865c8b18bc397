//! What a walk comes to: the notes that the observer is told, the counts of
//! what was met, and why it ended early, as functions of the tree.

use crate::text::path_extension;
use crate::tree::{EntryView, FileView, TreeView};
use vstd::prelude::*;

verus! {

/// What the walker tells its observer.
pub enum DirNote {
    /// A directory was entered, by the path given.
    Dir(Seq<char>),
    /// A file of the directory entered last passed the filter.
    File(FileView),
}

/// Why a walk ended early: the mathematical form of a
/// [`WalkError`](crate::dir_nav::WalkError).
pub enum Fault {
    NotADirectory,
    Enumeration(Seq<char>),
}

/// What is said of a path that is no directory.
pub const NOT_A_DIRECTORY: &'static str = "Not a directory";

impl Fault {
    /// What the error says: for a listing that broke off, the reason.
    pub open spec fn text(self) -> Seq<char> {
        match self {
            Fault::NotADirectory => NOT_A_DIRECTORY@,
            Fault::Enumeration(reason) => reason,
        }
    }
}

/// What a walk, or a part of one, comes to.
pub struct Walk {
    /// What the observer was told, in order.
    pub notes: Seq<DirNote>,
    /// How many directories were entered.
    pub dirs: nat,
    /// How many files were met.
    pub files: nat,
    /// Why the walk ended early, if it did.
    pub fault: Option<Fault>,
}

impl Walk {
    /// The walk in which nothing happens.
    pub open spec fn idle() -> Walk {
        Walk { notes: Seq::empty(), dirs: 0, files: 0, fault: None }
    }

    /// The walk in which one directory is entered, by the path given.
    pub open spec fn entering(path: Seq<char>) -> Walk {
        Walk { notes: seq![DirNote::Dir(path)], dirs: 1, files: 0, fault: None }
    }

    /// This walk and then `next`.
    pub open spec fn followed_by(self, next: Walk) -> Walk {
        Walk {
            notes: self.notes + next.notes,
            dirs: self.dirs + next.dirs,
            files: self.files + next.files,
            fault: next.fault,
        }
    }
}

/// The extension is among the patterns.
pub open spec fn listed(extension: Option<Seq<char>>, patterns: Seq<Seq<char>>) -> bool {
    extension is Some && patterns.contains(extension->0)
}

/// A file of this name is reported to the observer: there are no patterns, or
/// the extension of the name is among them.
pub open spec fn reported(name: Seq<char>, patterns: Seq<Seq<char>>) -> bool {
    patterns.len() == 0 || listed(path_extension(name), patterns)
}

/// What going through the entries of one directory comes to: each file is
/// counted, and reported if its extension is asked for, up to the entry at
/// which the listing broke off. Sub-directories are passed over.
pub open spec fn scan(entries: Seq<EntryView>, patterns: Seq<Seq<char>>) -> Walk
    decreases entries.len(),
{
    if entries.len() == 0 {
        Walk::idle()
    } else {
        let before = scan(entries.drop_last(), patterns);
        if before.fault is Some {
            before
        } else {
            match entries.last() {
                EntryView::File(file) => Walk {
                    notes: if reported(file.name, patterns) {
                        before.notes.push(DirNote::File(file))
                    } else {
                        before.notes
                    },
                    files: before.files + 1,
                    ..before
                },
                EntryView::Dir(_) => before,
                EntryView::Failed(reason) => Walk {
                    fault: Some(Fault::Enumeration(reason)),
                    ..before
                },
            }
        }
    }
}

/// What walking `tree` comes to. A path that is no directory ends the walk
/// before anything happens. Else the directory is entered and its entries are
/// gone through; then, if that went well and `recurse` is set, its
/// sub-directories are walked in the order in which they were listed, up to
/// the first that fails.
pub open spec fn walk(tree: TreeView, patterns: Seq<Seq<char>>, recurse: bool) -> Walk
    decreases tree,
{
    match tree.listing {
        None => Walk { fault: Some(Fault::NotADirectory), ..Walk::idle() },
        Some(entries) => {
            let here = scan(entries, patterns);
            let entered = Walk::entering(tree.path).followed_by(here);
            if here.fault is Some || !recurse {
                entered
            } else {
                entered.followed_by(descend(entries, patterns))
            }
        },
    }
}

/// What walking the sub-directories among `entries` comes to, each with its
/// own sub-directories, in the order in which they were listed, up to the
/// first that fails.
pub open spec fn descend(entries: Seq<EntryView>, patterns: Seq<Seq<char>>) -> Walk
    decreases entries,
{
    if entries.len() == 0 {
        Walk::idle()
    } else {
        let before = descend(entries.drop_last(), patterns);
        if before.fault is Some {
            before
        } else {
            match entries.last() {
                EntryView::Dir(sub) => before.followed_by(walk(sub, patterns, true)),
                _ => before,
            }
        }
    }
}

/// Once the listing has broken off, what follows it is not looked at.
pub proof fn lemma_scan_stuck(entries: Seq<EntryView>, patterns: Seq<Seq<char>>, count: int)
    requires
        0 <= count <= entries.len(),
        scan(entries.take(count), patterns).fault is Some,
    ensures
        scan(entries, patterns) == scan(entries.take(count), patterns),
    decreases entries.len(),
{
    if count == entries.len() {
        assert(entries.take(count) =~= entries);
    } else {
        assert(entries.drop_last().take(count) =~= entries.take(count));
        lemma_scan_stuck(entries.drop_last(), patterns, count);
    }
}

/// Once a sub-directory has failed, those after it are not walked.
pub proof fn lemma_descend_stuck(entries: Seq<EntryView>, patterns: Seq<Seq<char>>, count: int)
    requires
        0 <= count <= entries.len(),
        descend(entries.take(count), patterns).fault is Some,
    ensures
        descend(entries, patterns) == descend(entries.take(count), patterns),
    decreases entries.len(),
{
    if count == entries.len() {
        assert(entries.take(count) =~= entries);
    } else {
        assert(entries.drop_last().take(count) =~= entries.take(count));
        lemma_descend_stuck(entries.drop_last(), patterns, count);
    }
}

/// How many of the entries are files.
pub open spec fn files_among(entries: Seq<EntryView>) -> nat
    decreases entries.len(),
{
    if entries.len() == 0 {
        0
    } else {
        files_among(entries.drop_last()) + if entries.last() is File {
            1nat
        } else {
            0nat
        }
    }
}

/// The listing did not break off.
pub open spec fn unbroken(entries: Seq<EntryView>) -> bool {
    forall|i: int| 0 <= i < entries.len() ==> !(#[trigger] entries[i] is Failed)
}

/// Every path of the tree is a directory whose listing did not break off.
pub open spec fn intact(tree: TreeView) -> bool
    decreases tree,
{
    match tree.listing {
        None => false,
        Some(entries) => unbroken(entries) && intact_among(entries),
    }
}

/// The sub-directories among `entries` are intact.
pub open spec fn intact_among(entries: Seq<EntryView>) -> bool
    decreases entries,
{
    if entries.len() == 0 {
        true
    } else {
        &&& intact_among(entries.drop_last())
        &&& match entries.last() {
            EntryView::Dir(sub) => intact(sub),
            _ => true,
        }
    }
}

/// How many files the tree holds, at any depth.
pub open spec fn files_below(tree: TreeView) -> nat
    decreases tree,
{
    match tree.listing {
        None => 0,
        Some(entries) => files_among(entries) + files_under(entries),
    }
}

/// How many files the sub-directories among `entries` hold, at any depth.
pub open spec fn files_under(entries: Seq<EntryView>) -> nat
    decreases entries,
{
    if entries.len() == 0 {
        0
    } else {
        files_under(entries.drop_last()) + match entries.last() {
            EntryView::Dir(sub) => files_below(sub),
            _ => 0,
        }
    }
}

/// How many directories the tree holds, itself included.
pub open spec fn dirs_below(tree: TreeView) -> nat
    decreases tree,
{
    match tree.listing {
        None => 0,
        Some(entries) => 1 + dirs_under(entries),
    }
}

/// How many directories the sub-directories among `entries` hold, themselves
/// included.
pub open spec fn dirs_under(entries: Seq<EntryView>) -> nat
    decreases entries,
{
    if entries.len() == 0 {
        0
    } else {
        dirs_under(entries.drop_last()) + match entries.last() {
            EntryView::Dir(sub) => dirs_below(sub),
            _ => 0,
        }
    }
}

/// A listing that did not break off is still one without its last entry.
proof fn lemma_unbroken_front(entries: Seq<EntryView>)
    requires
        unbroken(entries),
        entries.len() > 0,
    ensures
        unbroken(entries.drop_last()),
        !(entries.last() is Failed),
{
    assert forall|i: int| 0 <= i < entries.drop_last().len() implies !(
    #[trigger] entries.drop_last()[i] is Failed) by {
        assert(entries.drop_last()[i] == entries[i]);
    }
    assert(!(entries[entries.len() - 1] is Failed));
}

/// Going through a listing that did not break off meets each of its files
/// and does not fail.
pub proof fn lemma_scan_counts(entries: Seq<EntryView>, patterns: Seq<Seq<char>>)
    requires
        unbroken(entries),
    ensures
        scan(entries, patterns).fault is None,
        scan(entries, patterns).files == files_among(entries),
        scan(entries, patterns).dirs == 0,
    decreases entries.len(),
{
    if entries.len() > 0 {
        lemma_unbroken_front(entries);
        lemma_scan_counts(entries.drop_last(), patterns);
    }
}

/// A walk of an intact tree does not fail. Without recursion it enters the
/// root alone and meets the files that are entries of the root. With
/// recursion it enters every directory of the tree and meets every file of
/// the tree.
pub proof fn lemma_walk_counts(tree: TreeView, patterns: Seq<Seq<char>>)
    requires
        intact(tree),
    ensures
        walk(tree, patterns, false).fault is None,
        walk(tree, patterns, false).dirs == 1,
        walk(tree, patterns, false).files == files_among(tree.listing->0),
        walk(tree, patterns, true).fault is None,
        walk(tree, patterns, true).dirs == dirs_below(tree),
        walk(tree, patterns, true).files == files_below(tree),
    decreases tree,
{
    let entries = tree.listing->0;
    lemma_scan_counts(entries, patterns);
    lemma_descend_counts(entries, patterns);
}

/// Walking the sub-directories of an intact tree does not fail, enters every
/// directory below them and meets every file below them.
pub proof fn lemma_descend_counts(entries: Seq<EntryView>, patterns: Seq<Seq<char>>)
    requires
        intact_among(entries),
    ensures
        descend(entries, patterns).fault is None,
        descend(entries, patterns).dirs == dirs_under(entries),
        descend(entries, patterns).files == files_under(entries),
    decreases entries,
{
    if entries.len() > 0 {
        lemma_descend_counts(entries.drop_last(), patterns);
        match entries.last() {
            EntryView::Dir(sub) => {
                lemma_walk_counts(sub, patterns);
            },
            _ => {},
        }
    }
}

/// Every file that going through a listing reports is a file of the listing
/// that passes the filter.
proof fn lemma_scan_sound(entries: Seq<EntryView>, patterns: Seq<Seq<char>>, at: int)
    requires
        0 <= at < scan(entries, patterns).notes.len(),
    ensures
        scan(entries, patterns).notes[at] is File,
        entries.contains(EntryView::File(scan(entries, patterns).notes[at]->File_0)),
        reported(scan(entries, patterns).notes[at]->File_0.name, patterns),
    decreases entries.len(),
{
    if entries.len() > 0 {
        let front = entries.drop_last();
        let before = scan(front, patterns);
        if at < before.notes.len() {
            lemma_scan_sound(front, patterns, at);
            let file = before.notes[at]->File_0;
            let i = choose|i: int| 0 <= i < front.len() && front[i] == EntryView::File(file);
            assert(entries[i] == front[i]);
        } else {
            assert(entries[entries.len() - 1] == entries.last());
        }
    }
}

/// A file of a listing that did not break off is reported to the observer
/// exactly if there are no patterns or its extension is among them.
pub proof fn lemma_reported_iff(entries: Seq<EntryView>, patterns: Seq<Seq<char>>, file: FileView)
    requires
        unbroken(entries),
        entries.contains(EntryView::File(file)),
    ensures
        scan(entries, patterns).notes.contains(DirNote::File(file)) <==> reported(
            file.name,
            patterns,
        ),
    decreases entries.len(),
{
    let notes = scan(entries, patterns).notes;
    if notes.contains(DirNote::File(file)) {
        let at = choose|at: int| 0 <= at < notes.len() && notes[at] == DirNote::File(file);
        lemma_scan_sound(entries, patterns, at);
    }
    if reported(file.name, patterns) {
        let front = entries.drop_last();
        lemma_unbroken_front(entries);
        lemma_scan_counts(front, patterns);
        let before = scan(front, patterns);
        let i = choose|i: int| 0 <= i < entries.len() && entries[i] == EntryView::File(file);
        if i < front.len() {
            assert(front[i] == EntryView::File(file));
            lemma_reported_iff(front, patterns, file);
            let at = choose|at: int|
                0 <= at < before.notes.len() && before.notes[at] == DirNote::File(file);
            assert(notes[at] == DirNote::File(file));
        } else {
            assert(notes.last() == DirNote::File(file));
        }
    }
}

/// How many of the notes tell of a directory.
pub open spec fn dirs_told(notes: Seq<DirNote>) -> nat
    decreases notes.len(),
{
    if notes.len() == 0 {
        0
    } else {
        dirs_told(notes.drop_last()) + if notes.last() is Dir {
            1nat
        } else {
            0nat
        }
    }
}

/// Of two runs of notes in turn, as many tell of a directory as of the first
/// and of the second together.
proof fn lemma_dirs_told_concat(first: Seq<DirNote>, second: Seq<DirNote>)
    ensures
        dirs_told(first + second) == dirs_told(first) + dirs_told(second),
    decreases second.len(),
{
    if second.len() == 0 {
        assert(first + second =~= first);
    } else {
        assert((first + second).drop_last() =~= first + second.drop_last());
        lemma_dirs_told_concat(first, second.drop_last());
    }
}

/// Going through the entries of a directory tells of files alone.
proof fn lemma_scan_tells_files(entries: Seq<EntryView>, patterns: Seq<Seq<char>>)
    ensures
        dirs_told(scan(entries, patterns).notes) == 0,
        scan(entries, patterns).dirs == 0,
    decreases entries.len(),
{
    if entries.len() > 0 {
        lemma_scan_tells_files(entries.drop_last(), patterns);
        let before = scan(entries.drop_last(), patterns);
        let after = scan(entries, patterns);
        if after.notes.len() > before.notes.len() {
            assert(after.notes.drop_last() =~= before.notes);
        }
    }
}

/// The directories are counted as the observer is told of them: once for each
/// directory entered, whether the walk fails or not.
pub proof fn lemma_dirs_counted(tree: TreeView, patterns: Seq<Seq<char>>, recurse: bool)
    ensures
        walk(tree, patterns, recurse).dirs == dirs_told(walk(tree, patterns, recurse).notes),
    decreases tree,
{
    match tree.listing {
        None => {},
        Some(entries) => {
            let here = scan(entries, patterns);
            let entering = Walk::entering(tree.path);
            lemma_scan_tells_files(entries, patterns);
            assert(dirs_told(entering.notes.drop_last()) == 0);
            assert(dirs_told(entering.notes) == 1);
            lemma_dirs_told_concat(entering.notes, here.notes);
            if here.fault is None && recurse {
                lemma_descend_dirs_counted(entries, patterns);
                lemma_dirs_told_concat(
                    entering.followed_by(here).notes,
                    descend(entries, patterns).notes,
                );
            }
        },
    }
}

/// The directories below are counted as the observer is told of them.
pub proof fn lemma_descend_dirs_counted(entries: Seq<EntryView>, patterns: Seq<Seq<char>>)
    ensures
        descend(entries, patterns).dirs == dirs_told(descend(entries, patterns).notes),
    decreases entries,
{
    if entries.len() > 0 {
        lemma_descend_dirs_counted(entries.drop_last(), patterns);
        let before = descend(entries.drop_last(), patterns);
        if before.fault is None {
            match entries.last() {
                EntryView::Dir(sub) => {
                    lemma_dirs_counted(sub, patterns, true);
                    lemma_dirs_told_concat(before.notes, walk(sub, patterns, true).notes);
                },
                _ => {},
            }
        }
    }
}

/// The file is an entry of a directory of the tree, at any depth.
pub open spec fn occurs(tree: TreeView, file: FileView) -> bool
    decreases tree,
{
    match tree.listing {
        None => false,
        Some(entries) => entries.contains(EntryView::File(file)) || occurs_among(entries, file),
    }
}

/// The file occurs in one of the sub-directories among `entries`.
pub open spec fn occurs_among(entries: Seq<EntryView>, file: FileView) -> bool
    decreases entries,
{
    if entries.len() == 0 {
        false
    } else {
        ||| occurs_among(entries.drop_last(), file)
        ||| match entries.last() {
            EntryView::Dir(sub) => occurs(sub, file),
            _ => false,
        }
    }
}

/// Whatever file a walk reports passes the filter, and with recursion is a
/// file of the tree, without it an entry of the root.
pub proof fn lemma_walk_sound(tree: TreeView, patterns: Seq<Seq<char>>, recurse: bool, at: int)
    requires
        0 <= at < walk(tree, patterns, recurse).notes.len(),
        walk(tree, patterns, recurse).notes[at] is File,
    ensures
        reported(walk(tree, patterns, recurse).notes[at]->File_0.name, patterns),
        occurs(tree, walk(tree, patterns, recurse).notes[at]->File_0),
        !recurse ==> tree.listing->0.contains(
            EntryView::File(walk(tree, patterns, recurse).notes[at]->File_0),
        ),
    decreases tree,
{
    let entries = tree.listing->0;
    let here = scan(entries, patterns);
    if at - 1 < here.notes.len() {
        lemma_scan_sound(entries, patterns, at - 1);
    } else {
        lemma_descend_sound(entries, patterns, at - 1 - here.notes.len());
    }
}

/// Whatever file the walks of the sub-directories report passes the filter and
/// is a file of one of them.
pub proof fn lemma_descend_sound(entries: Seq<EntryView>, patterns: Seq<Seq<char>>, at: int)
    requires
        0 <= at < descend(entries, patterns).notes.len(),
        descend(entries, patterns).notes[at] is File,
    ensures
        reported(descend(entries, patterns).notes[at]->File_0.name, patterns),
        occurs_among(entries, descend(entries, patterns).notes[at]->File_0),
    decreases entries,
{
    if entries.len() > 0 {
        let before = descend(entries.drop_last(), patterns);
        if at < before.notes.len() {
            lemma_descend_sound(entries.drop_last(), patterns, at);
        } else {
            match entries.last() {
                EntryView::Dir(sub) => {
                    lemma_walk_sound(sub, patterns, true, at - before.notes.len());
                },
                _ => {},
            }
        }
    }
}

/// A file of an intact tree is reported by a walk with recursion exactly if
/// there are no patterns or its extension is among them.
pub proof fn lemma_walk_reported_iff(tree: TreeView, patterns: Seq<Seq<char>>, file: FileView)
    requires
        intact(tree),
        occurs(tree, file),
    ensures
        walk(tree, patterns, true).notes.contains(DirNote::File(file)) <==> reported(
            file.name,
            patterns,
        ),
    decreases tree,
{
    let notes = walk(tree, patterns, true).notes;
    if notes.contains(DirNote::File(file)) {
        let at = choose|at: int| 0 <= at < notes.len() && notes[at] == DirNote::File(file);
        lemma_walk_sound(tree, patterns, true, at);
    }
    if reported(file.name, patterns) {
        let entries = tree.listing->0;
        let here = scan(entries, patterns);
        let below = descend(entries, patterns);
        lemma_scan_counts(entries, patterns);
        if entries.contains(EntryView::File(file)) {
            lemma_reported_iff(entries, patterns, file);
            let at = choose|at: int|
                0 <= at < here.notes.len() && here.notes[at] == DirNote::File(file);
            assert(notes[at + 1] == DirNote::File(file));
        } else {
            lemma_descend_reports(entries, patterns, file);
            let at = choose|at: int|
                0 <= at < below.notes.len() && below.notes[at] == DirNote::File(file);
            assert(notes[1 + here.notes.len() + at] == DirNote::File(file));
        }
    }
}

/// A file that passes the filter and occurs in one of the sub-directories of
/// an intact tree is reported by the walks of the sub-directories.
pub proof fn lemma_descend_reports(
    entries: Seq<EntryView>,
    patterns: Seq<Seq<char>>,
    file: FileView,
)
    requires
        intact_among(entries),
        occurs_among(entries, file),
        reported(file.name, patterns),
    ensures
        descend(entries, patterns).notes.contains(DirNote::File(file)),
    decreases entries,
{
    let notes = descend(entries, patterns).notes;
    let before = descend(entries.drop_last(), patterns);
    lemma_descend_counts(entries.drop_last(), patterns);
    if occurs_among(entries.drop_last(), file) {
        lemma_descend_reports(entries.drop_last(), patterns, file);
        let at = choose|at: int|
            0 <= at < before.notes.len() && before.notes[at] == DirNote::File(file);
        assert(notes[at] == DirNote::File(file));
    } else {
        let sub = entries.last()->Dir_0;
        lemma_walk_reported_iff(sub, patterns, file);
        let inner = walk(sub, patterns, true).notes;
        let at = choose|at: int| 0 <= at < inner.len() && inner[at] == DirNote::File(file);
        assert(notes[before.notes.len() + at] == DirNote::File(file));
    }
}

/// The order of a walk with recursion that does not fail in the root: first
/// the root is entered, then come its files, then its sub-directories, each
/// with all that is below it.
pub proof fn lemma_walk_order(tree: TreeView, patterns: Seq<Seq<char>>)
    requires
        tree.listing is Some,
        scan(tree.listing->0, patterns).fault is None,
    ensures
        walk(tree, patterns, true).notes == seq![DirNote::Dir(tree.path)] + scan(
            tree.listing->0,
            patterns,
        ).notes + descend(tree.listing->0, patterns).notes,
        walk(tree, patterns, false).notes == seq![DirNote::Dir(tree.path)] + scan(
            tree.listing->0,
            patterns,
        ).notes,
        dirs_told(scan(tree.listing->0, patterns).notes) == 0,
{
    lemma_scan_tells_files(tree.listing->0, patterns);
}

} // verus!
