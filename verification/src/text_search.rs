//! The searcher: an observer of the walker that decides for each file it is
//! told of whether the file holds the search text, and tells an observer of
//! its own.

use crate::dir_nav::{capped, DirEvent};
use crate::text::{contains_text, is_substring, lemma_empty_is_substring};
use crate::tree::{ContentView, FileContent, FileEntry, FileView};
use vstd::prelude::*;

verus! {

/// An observer of the searcher. Its model is of the same kind as that of an
/// observer of the walker (see [`DirEvent`]).
pub trait SearchEvent: Sized {
    /// The mathematical form of the observer's state.
    type Model;

    /// The state of this observer.
    open spec fn model(&self) -> Self::Model {
        arbitrary()
    }

    /// The state of a new observer.
    open spec fn fresh() -> Self::Model {
        arbitrary()
    }

    /// The state after a directory was entered.
    open spec fn after_dir(before: Self::Model, dir: Seq<char>) -> Self::Model {
        before
    }

    /// The state after the result for a file came: its name, whether the text
    /// was found in it, and the text, or in its place the reason why the file
    /// was not searched.
    open spec fn after_file(
        before: Self::Model,
        file: Seq<char>,
        found: bool,
        text: Seq<char>,
    ) -> Self::Model {
        before
    }

    /// A new observer.
    fn new() -> (observer: Self)
        ensures
            observer.model() == Self::fresh(),
    ;

    /// The files that follow are in the directory `dir`.
    fn set_dir(&mut self, dir: &str)
        ensures
            final(self).model() == Self::after_dir(old(self).model(), dir@),
    ;

    /// The result for a file: its name, whether the text was found in it, and
    /// the text, or in its place the reason why the file was not searched.
    fn set_file(&mut self, result: (&str, bool, &str))
        ensures
            final(self).model() == Self::after_file(
                old(self).model(),
                result.0@,
                result.1,
                result.2@,
            ),
    ;
}

/// The searcher. It holds the directory that the walker entered last, the
/// text that is looked for, its observer, and the count of the files in which
/// the text was found.
pub struct TextSearch<T: SearchEvent> {
    dir: String,
    search_text: String,
    out: T,
    num_found: usize,
}

/// The mathematical form of a searcher.
pub struct SearchModel<M> {
    /// The directory that the walker entered last.
    pub dir: Seq<char>,
    /// The text that is looked for.
    pub text: Seq<char>,
    /// In how many files the text was found.
    pub found: usize,
    /// The state of the observer.
    pub out: M,
}

/// What the observer is told in place of the search text where a file could
/// not be opened.
pub const CANNOT_OPEN: &'static str = "Cannot Open File";

/// What the observer is told in place of the search text where a file could
/// not be read.
pub const CANNOT_READ: &'static str = "Cannot Read File";

impl<T: SearchEvent> DirEvent for TextSearch<T> {
    type Model = SearchModel<T::Model>;

    closed spec fn model(&self) -> SearchModel<T::Model> {
        SearchModel {
            dir: self.dir@,
            text: self.search_text@,
            found: self.num_found,
            out: self.out.model(),
        }
    }

    open spec fn fresh() -> SearchModel<T::Model> {
        SearchModel { dir: Seq::empty(), text: Seq::empty(), found: 0, out: T::fresh() }
    }

    /// The directory is kept, and the observer is told of it.
    open spec fn after_dir(before: SearchModel<T::Model>, dir: Seq<char>) -> SearchModel<
        T::Model,
    > {
        SearchModel { dir, out: T::after_dir(before.out, dir), ..before }
    }

    /// A file that could not be opened or read is reported as one without the
    /// text, with the reason in place of the text. In a file that was read the
    /// text is found exactly if it occurs in it; such a file is counted, the
    /// count stopping at the largest number.
    open spec fn after_file(before: SearchModel<T::Model>, file: FileView) -> SearchModel<
        T::Model,
    > {
        match file.content {
            ContentView::Unopenable => SearchModel {
                out: T::after_file(before.out, file.name, false, CANNOT_OPEN@),
                ..before
            },
            ContentView::Unreadable => SearchModel {
                out: T::after_file(before.out, file.name, false, CANNOT_READ@),
                ..before
            },
            ContentView::Text(content) => {
                let found = is_substring(before.text, content);
                SearchModel {
                    found: if found {
                        capped(before.found + 1)
                    } else {
                        before.found
                    },
                    out: T::after_file(before.out, file.name, found, before.text),
                    ..before
                }
            },
        }
    }

    /// A searcher with a new observer, that looks for the empty text and has
    /// found nothing.
    fn new() -> (searcher: Self) {
        TextSearch { dir: String::new(), search_text: String::new(), out: T::new(), num_found: 0 }
    }

    /// Keeps the directory and tells the observer of it.
    fn do_dir(&mut self, path: &str) {
        self.dir = path.to_owned();
        self.out.set_dir(path);
    }

    /// Looks for the text in what was read of the file, counts the file if
    /// the text is there, and tells the observer the result.
    fn do_file(&mut self, file: &FileEntry) {
        match &file.content {
            FileContent::Unopenable => {
                self.out.set_file((file.name.as_str(), false, CANNOT_OPEN));
            },
            FileContent::Unreadable => {
                self.out.set_file((file.name.as_str(), false, CANNOT_READ));
            },
            FileContent::Text(content) => {
                let found = contains_text(content.as_str(), self.search_text.as_str());
                if found {
                    self.num_found = self.num_found.saturating_add(1);
                }
                self.out.set_file((file.name.as_str(), found, self.search_text.as_str()));
            },
        }
    }
}

impl<T: SearchEvent> TextSearch<T> {
    /// From now on `search_text` is looked for.
    pub fn set_search_text(&mut self, search_text: &str)
        ensures
            final(self).model() == (SearchModel::<T::Model> {
                text: search_text@,
                ..old(self).model()
            }),
    {
        self.search_text = search_text.to_owned();
    }

    /// The observer, to read and to change.
    pub fn get_app(&mut self) -> (out: &mut T)
        ensures
            out.model() == old(self).model().out,
            final(self).model() == (SearchModel::<T::Model> {
                out: final(out).model(),
                ..old(self).model()
            }),
    {
        &mut self.out
    }

    /// In how many files the text was found.
    pub fn get_num_found(&self) -> (count: usize)
        ensures
            count == self.model().found,
    {
        self.num_found
    }

    /// The text that is looked for.
    pub fn get_search_text(&self) -> (text: &String)
        ensures
            text@ == self.model().text,
    {
        &self.search_text
    }

    /// The directory that the walker entered last.
    pub fn get_dir(&self) -> (dir: &String)
        ensures
            dir@ == self.model().dir,
    {
        &self.dir
    }
}

/// A file that was read is reported as found exactly if the search text
/// occurs in its content, with the text that was looked for, and is counted
/// exactly then. With the empty text every such file is reported as found.
pub proof fn lemma_found_iff_contains<T: SearchEvent>(
    before: SearchModel<T::Model>,
    name: Seq<char>,
    content: Seq<char>,
)
    ensures
        ({
            let file = FileView { name, content: ContentView::Text(content) };
            let after = TextSearch::<T>::after_file(before, file);
            let found = is_substring(before.text, content);
            &&& after.out == T::after_file(before.out, name, found, before.text)
            &&& after.found == if found {
                capped(before.found + 1)
            } else {
                before.found
            }
            &&& before.text.len() == 0 ==> found
        }),
{
    if before.text.len() == 0 {
        assert(before.text =~= Seq::empty());
        lemma_empty_is_substring(content);
    }
}

} // verus!
