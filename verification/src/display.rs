//! The display: an observer of the searcher that makes the lines to print.

use crate::text_search::SearchEvent;
use vstd::prelude::*;

verus! {

/// The display. It keeps what it was told last, and the lines that it has
/// made: for each file in which the text was found its name, and before the
/// first such file of a directory the directory.
pub struct Display {
    current_directory: String,
    current_file: String,
    search_text: String,
    found: bool,
    display_directory: bool,
    lines: Vec<String>,
}

/// The mathematical form of a display.
pub struct DisplayModel {
    /// The directory it was told of last.
    pub current_directory: Seq<char>,
    /// The file it was told of last.
    pub current_file: Seq<char>,
    /// The search text that came with that file.
    pub search_text: Seq<char>,
    /// Whether the text was found in that file.
    pub found: bool,
    /// Whether the directory is still to be shown before the next file.
    pub display_directory: bool,
    /// The lines made so far.
    pub lines: Seq<Seq<char>>,
}

impl View for Display {
    type V = DisplayModel;

    closed spec fn view(&self) -> DisplayModel {
        DisplayModel {
            current_directory: self.current_directory@,
            current_file: self.current_file@,
            search_text: self.search_text@,
            found: self.found,
            display_directory: self.display_directory,
            lines: self.lines.deep_view(),
        }
    }
}

impl SearchEvent for Display {
    type Model = DisplayModel;

    open spec fn model(&self) -> DisplayModel {
        self@
    }

    open spec fn fresh() -> DisplayModel {
        DisplayModel {
            current_directory: Seq::empty(),
            current_file: Seq::empty(),
            search_text: Seq::empty(),
            found: false,
            display_directory: false,
            lines: Seq::empty(),
        }
    }

    /// The directory is kept, to be shown before the next file in which the
    /// text is found.
    open spec fn after_dir(before: DisplayModel, dir: Seq<char>) -> DisplayModel {
        DisplayModel { current_directory: dir, display_directory: true, ..before }
    }

    /// A file in which the text was found gets a line, after a line for its
    /// directory if that is still to be shown. Any other file gets none.
    open spec fn after_file(
        before: DisplayModel,
        file: Seq<char>,
        found: bool,
        text: Seq<char>,
    ) -> DisplayModel {
        DisplayModel {
            current_file: file,
            search_text: text,
            found,
            display_directory: before.display_directory && !found,
            lines: if !found {
                before.lines
            } else if before.display_directory {
                before.lines.push(before.current_directory).push(file)
            } else {
                before.lines.push(file)
            },
            ..before
        }
    }

    /// A display that has been told nothing and has made no line.
    fn new() -> (display: Self) {
        let display = Display {
            current_directory: String::new(),
            current_file: String::new(),
            search_text: String::new(),
            found: false,
            display_directory: false,
            lines: Vec::new(),
        };
        assert(display.lines.deep_view() =~= Seq::empty());
        display
    }

    /// Keeps the directory, to show it before the next file in which the text
    /// is found.
    fn set_dir(&mut self, dir: &str) {
        self.current_directory = dir.to_owned();
        self.display_directory = true;
    }

    /// Keeps the result, and makes the lines for a file in which the text was
    /// found.
    fn set_file(&mut self, result: (&str, bool, &str)) {
        self.current_file = result.0.to_owned();
        self.found = result.1;
        self.search_text = result.2.to_owned();
        if self.found {
            if self.display_directory {
                self.lines.push(self.current_directory.clone());
                self.display_directory = false;
            }
            self.lines.push(self.current_file.clone());
            assert(self@.lines =~= Self::after_file(
                old(self)@,
                result.0@,
                result.1,
                result.2@,
            ).lines);
        }
    }
}

impl Display {
    /// The directory it was told of last.
    pub fn current_directory(&self) -> (dir: &String)
        ensures
            dir@ == self@.current_directory,
    {
        &self.current_directory
    }

    /// The file it was told of last.
    pub fn current_file(&self) -> (file: &String)
        ensures
            file@ == self@.current_file,
    {
        &self.current_file
    }

    /// The search text that came with that file.
    pub fn search_text(&self) -> (text: &String)
        ensures
            text@ == self@.search_text,
    {
        &self.search_text
    }

    /// Whether the text was found in that file.
    pub fn found(&self) -> (found: bool)
        ensures
            found == self@.found,
    {
        self.found
    }

    /// Whether the directory is still to be shown before the next file.
    pub fn display_directory(&self) -> (pending: bool)
        ensures
            pending == self@.display_directory,
    {
        self.display_directory
    }

    /// The lines made so far, each to be printed on a line of its own.
    pub fn lines(&self) -> (lines: &Vec<String>)
        ensures
            lines.deep_view() == self@.lines,
    {
        &self.lines
    }
}

/// The directory is shown once, before the first file of it in which the text
/// is found: a second such file gets its line alone, and a file without the
/// text gets none.
pub proof fn lemma_directory_shown_once(
    before: DisplayModel,
    first: Seq<char>,
    second: Seq<char>,
    text: Seq<char>,
)
    ensures
        ({
            let once = Display::after_file(before, first, true, text);
            let twice = Display::after_file(once, second, true, text);
            let missed = Display::after_file(before, first, false, text);
            &&& once.lines == if before.display_directory {
                before.lines.push(before.current_directory).push(first)
            } else {
                before.lines.push(first)
            }
            &&& twice.lines == once.lines.push(second)
            &&& missed.lines == before.lines
            &&& missed.display_directory == before.display_directory
        }),
{
}

} // verus!
