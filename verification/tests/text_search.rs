use text_finder::dir_nav::{DirEvent, DirNav};
use text_finder::text_search::{SearchEvent, TextSearch};
use text_finder::tree::{Entry, FileContent, FileEntry, Location};

struct MockOutput {
    dir: String,
    file: String,
    search_text: String,
    found: Vec<(String, bool, String)>,
}

impl SearchEvent for MockOutput {
    type Model = ();

    fn new() -> Self {
        MockOutput {
            dir: String::new(),
            file: String::new(),
            search_text: String::new(),
            found: Vec::new(),
        }
    }

    fn set_dir(&mut self, dir: &str) {
        self.dir = dir.to_string();
    }

    fn set_file(&mut self, result: (&str, bool, &str)) {
        self.file = result.0.to_string();
        self.search_text = (result.2).to_string();
        self.found.push((result.0.to_string(), result.1, result.2.to_string()));
    }
}

fn text_file(name: &str, text: &str) -> FileEntry {
    FileEntry { name: name.to_string(), content: FileContent::Text(text.to_string()) }
}

#[test]
fn test_sets() {
    let mut app = TextSearch::<MockOutput>::new();
    let search_text = "search_text";
    let search_path = "./src";

    app.set_search_text(search_text);
    app.do_dir(search_path);

    assert_eq!(*app.get_search_text(), search_text.to_string());
    assert_eq!(app.get_dir(), search_path);
}

#[test]
fn test_traits() {
    let mut app = TextSearch::<MockOutput>::new();
    let search_text = "SearchEvent";
    let search_path = "./src";
    let search_file = text_file(
        "text_search.rs",
        "use dir_nav::DirEvent;\n\npub trait SearchEvent {\n    fn new() -> Self;\n}\n",
    );

    app.set_search_text(search_text);
    app.do_dir(search_path);
    app.do_file(&search_file);

    assert_eq!(app.get_app().dir, search_path);
    assert_eq!(app.get_app().file, "text_search.rs");
    assert_eq!(app.get_app().search_text, search_text.to_string());
}

#[test]
fn a_file_is_found_exactly_if_it_holds_the_text() {
    let mut app = TextSearch::<MockOutput>::new();
    app.set_search_text("needle");
    app.do_dir("dir");
    app.do_file(&text_file("yes.txt", "hay needle hay"));
    app.do_file(&text_file("no.txt", "hay need le hay"));
    app.do_file(&text_file("start.txt", "needle hay"));
    app.do_file(&text_file("end.txt", "hay needle"));
    app.do_file(&text_file("exact.txt", "needle"));
    app.do_file(&text_file("short.txt", "needl"));
    app.do_file(&text_file("empty.txt", ""));
    assert_eq!(app.get_num_found(), 4);
    let flags: Vec<bool> = app.get_app().found.iter().map(|note| note.1).collect();
    assert_eq!(flags, vec![true, false, true, true, true, false, false]);
    assert!(app.get_app().found.iter().all(|note| note.2 == "needle"));
}

#[test]
fn the_search_is_case_sensitive() {
    let mut app = TextSearch::<MockOutput>::new();
    app.set_search_text("Needle");
    app.do_file(&text_file("lower.txt", "a needle"));
    app.do_file(&text_file("upper.txt", "a Needle"));
    assert_eq!(app.get_num_found(), 1);
    assert_eq!(
        app.get_app().found,
        vec![
            ("lower.txt".to_string(), false, "Needle".to_string()),
            ("upper.txt".to_string(), true, "Needle".to_string())
        ]
    );
}

#[test]
fn the_search_is_by_character() {
    let mut app = TextSearch::<MockOutput>::new();
    app.set_search_text("é");
    app.do_file(&text_file("accent.txt", "café"));
    app.do_file(&text_file("plain.txt", "cafe"));
    assert_eq!(app.get_num_found(), 1);
}

#[test]
fn the_empty_text_is_found_in_every_file_that_was_read() {
    let mut app = TextSearch::<MockOutput>::new();
    app.set_search_text("");
    app.do_file(&text_file("full.txt", "some text"));
    app.do_file(&text_file("empty.txt", ""));
    assert_eq!(app.get_num_found(), 2);
    assert_eq!(
        app.get_app().found,
        vec![
            ("full.txt".to_string(), true, String::new()),
            ("empty.txt".to_string(), true, String::new())
        ]
    );
}

#[test]
fn a_file_that_cannot_be_opened_is_reported_as_not_found() {
    let mut app = TextSearch::<MockOutput>::new();
    app.set_search_text("");
    app.do_file(&FileEntry { name: "locked".to_string(), content: FileContent::Unopenable });
    assert_eq!(app.get_num_found(), 0);
    assert_eq!(
        app.get_app().found,
        vec![("locked".to_string(), false, "Cannot Open File".to_string())]
    );
}

#[test]
fn a_file_that_cannot_be_read_is_reported_as_not_found() {
    let mut app = TextSearch::<MockOutput>::new();
    app.set_search_text("");
    app.do_file(&FileEntry { name: "binary".to_string(), content: FileContent::Unreadable });
    assert_eq!(app.get_num_found(), 0);
    assert_eq!(
        app.get_app().found,
        vec![("binary".to_string(), false, "Cannot Read File".to_string())]
    );
}

#[test]
fn a_new_text_holds_for_the_files_after_it() {
    let mut app = TextSearch::<MockOutput>::new();
    app.set_search_text("one");
    app.do_file(&text_file("a", "one two"));
    app.set_search_text("three");
    app.do_file(&text_file("b", "one two"));
    assert_eq!(app.get_num_found(), 1);
    assert_eq!(
        app.get_app().found,
        vec![
            ("a".to_string(), true, "one".to_string()),
            ("b".to_string(), false, "three".to_string())
        ]
    );
}

#[test]
fn a_new_searcher_has_found_nothing() {
    let app = TextSearch::<MockOutput>::new();
    assert_eq!(app.get_num_found(), 0);
    assert_eq!(app.get_search_text(), "");
    assert_eq!(app.get_dir(), "");
}

#[test]
fn the_searcher_hears_of_the_files_that_pass_the_filter() {
    let mut nav = DirNav::<TextSearch<MockOutput>>::new();
    nav.add_patterns("rs");
    nav.set_recursive_search();
    nav.get_app().set_search_text("fn");
    let tree = Location {
        path: "root".to_string(),
        listing: Some(vec![
            Entry::File(text_file("a.rs", "fn main() {}")),
            Entry::File(text_file("b.txt", "fn in a text")),
            Entry::Dir(Location {
                path: "root/sub".to_string(),
                listing: Some(vec![
                    Entry::File(text_file("c.rs", "struct S;")),
                    Entry::File(FileEntry {
                        name: "d.rs".to_string(),
                        content: FileContent::Unopenable,
                    }),
                ]),
            }),
        ]),
    };
    assert_eq!(nav.visit(&tree), Ok(()));
    assert_eq!(nav.get_number_of_files_processed(), 4);
    assert_eq!(nav.get_app().get_num_found(), 1);
    assert_eq!(nav.get_app().get_dir(), "root/sub");
    assert_eq!(nav.get_app().get_app().dir, "root/sub");
    assert_eq!(
        nav.get_app().get_app().found,
        vec![
            ("a.rs".to_string(), true, "fn".to_string()),
            ("c.rs".to_string(), false, "fn".to_string()),
            ("d.rs".to_string(), false, "Cannot Open File".to_string())
        ]
    );
}
