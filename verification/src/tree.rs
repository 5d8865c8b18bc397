//! What the walker is given to walk: the directory tree as it was read, held
//! as a value.

use vstd::prelude::*;

verus! {

broadcast use vstd::std_specs::vec::axiom_vec_decreases_to_view;

/// What reading a file gave.
#[derive(Debug, PartialEq, Eq)]
pub enum FileContent {
    /// The file could not be opened.
    Unopenable,
    /// The file was opened and could not be read to its end as text.
    Unreadable,
    /// The text of the file.
    Text(String),
}

/// The mathematical form of a [`FileContent`].
pub enum ContentView {
    Unopenable,
    Unreadable,
    Text(Seq<char>),
}

impl View for FileContent {
    type V = ContentView;

    open spec fn view(&self) -> ContentView {
        match self {
            FileContent::Unopenable => ContentView::Unopenable,
            FileContent::Unreadable => ContentView::Unreadable,
            FileContent::Text(text) => ContentView::Text(text@),
        }
    }
}

/// A file of a directory: its name within the directory, and what reading it
/// gave.
#[derive(Debug, PartialEq, Eq)]
pub struct FileEntry {
    pub name: String,
    pub content: FileContent,
}

/// The mathematical form of a [`FileEntry`].
pub struct FileView {
    pub name: Seq<char>,
    pub content: ContentView,
}

impl View for FileEntry {
    type V = FileView;

    open spec fn view(&self) -> FileView {
        FileView { name: self.name@, content: self.content@ }
    }
}

/// One step of listing a directory.
#[derive(Debug, PartialEq, Eq)]
pub enum Entry {
    /// An entry that is no directory.
    File(FileEntry),
    /// A sub-directory, with what was found in it.
    Dir(Location),
    /// The listing broke off here, for the reason given.
    Failed(String),
}

/// A path that the walker is sent to, with what was found there.
#[derive(Debug, PartialEq, Eq)]
pub struct Location {
    /// The path as the observer is to be told it.
    pub path: String,
    /// The entries in the order in which they were listed, or `None` where
    /// the path is no directory.
    pub listing: Option<Vec<Entry>>,
}

/// The mathematical form of an [`Entry`].
pub enum EntryView {
    File(FileView),
    Dir(TreeView),
    Failed(Seq<char>),
}

/// The mathematical form of a [`Location`]: a directory tree, or a path that
/// is no directory.
pub struct TreeView {
    pub path: Seq<char>,
    pub listing: Option<Seq<EntryView>>,
}

impl View for Entry {
    type V = EntryView;

    open spec fn view(&self) -> EntryView
        decreases self,
    {
        match self {
            Entry::File(file) => EntryView::File(file@),
            Entry::Dir(dir) => EntryView::Dir(dir@),
            Entry::Failed(reason) => EntryView::Failed(reason@),
        }
    }
}

impl View for Location {
    type V = TreeView;

    open spec fn view(&self) -> TreeView
        decreases self,
    {
        TreeView {
            path: self.path@,
            listing: match self.listing {
                None => None,
                Some(entries) => Some(listing_view(entries@)),
            },
        }
    }
}

/// The mathematical form of each entry of a listing.
pub open spec fn listing_view(entries: Seq<Entry>) -> Seq<EntryView>
    decreases entries,
{
    if entries.len() == 0 {
        Seq::empty()
    } else {
        listing_view(entries.drop_last()).push(entries.last()@)
    }
}

impl DeepView for Location {
    type V = TreeView;

    open spec fn deep_view(&self) -> TreeView {
        self@
    }
}

/// The mathematical form of a listing has, for each entry, the mathematical
/// form of the entry.
pub proof fn lemma_listing_view(entries: Seq<Entry>)
    ensures
        listing_view(entries).len() == entries.len(),
        forall|i: int|
            0 <= i < entries.len() ==> listing_view(entries)[i] == (#[trigger] entries[i])@,
    decreases entries.len(),
{
    if entries.len() > 0 {
        lemma_listing_view(entries.drop_last());
        assert(listing_view(entries) == listing_view(entries.drop_last()).push(entries.last()@));
        assert forall|i: int| 0 <= i < entries.len() implies listing_view(entries)[i] == (
        #[trigger] entries[i])@ by {
            if i < entries.len() - 1 {
                assert(entries.drop_last()[i] == entries[i]);
            }
        }
    }
}

} // verus!
