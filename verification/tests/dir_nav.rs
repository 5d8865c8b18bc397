use text_finder::dir_nav::{DirEvent, DirNav, WalkError};
use text_finder::tree::{Entry, FileContent, FileEntry, Location};

/// An observer that keeps what it is told.
struct Test {
    dirs: Vec<String>,
    results: Vec<String>,
}

impl DirEvent for Test {
    type Model = ();

    fn new() -> Self {
        Test { dirs: Vec::new(), results: Vec::new() }
    }

    fn do_dir(&mut self, d: &str) {
        self.dirs.push(d.to_string());
    }

    fn do_file(&mut self, f: &FileEntry) {
        self.results.push(f.name.clone());
    }
}

fn file(name: &str) -> Entry {
    Entry::File(FileEntry { name: name.to_string(), content: FileContent::Text(String::new()) })
}

fn dir(path: &str, entries: Vec<Entry>) -> Location {
    Location { path: path.to_string(), listing: Some(entries) }
}

fn setup() -> Location {
    dir(
        "./test_dir",
        vec![
            Entry::Dir(dir(
                "./test_dir/test_sub_dir1",
                vec![file("test_file1.rs"), file("test_file2.bin")],
            )),
            Entry::Dir(dir("./test_dir/test_sub_dir2", vec![file("test_file3.txt")])),
            file("test_file.rs"),
            Entry::Dir(dir("./test_dir/test_sub_dir3", vec![file("test_file4.out")])),
        ],
    )
}

/// root/{a.rs, sub1/{b.rs, c.bin}, sub2/{d.txt}}
fn small_tree() -> Location {
    dir(
        "root",
        vec![
            file("a.rs"),
            Entry::Dir(dir("root/sub1", vec![file("b.rs"), file("c.bin")])),
            Entry::Dir(dir("root/sub2", vec![file("d.txt")])),
        ],
    )
}

fn contains(list: &Vec<String>, name: &str) -> bool {
    list.iter().any(|item| item == name)
}

#[test]
fn test_norecurse() {
    let mut directory_nav = DirNav::<Test>::new();
    directory_nav.add_patterns("rs");
    directory_nav.add_patterns("bin");
    directory_nav.add_patterns("out");

    let res = directory_nav.visit(&setup());
    assert!(res.is_ok(), "Visit received error {:#?}", res.err());

    let res = &directory_nav.get_app().results;

    assert!(contains(res, "test_file.rs"));
    assert_eq!(contains(res, "test_file1.rs"), false);
    assert_eq!(contains(res, "test_file2.bin"), false);
    assert_eq!(contains(res, "test_file3.txt"), false);
    assert_eq!(contains(res, "test_file4.out"), false);
}

#[test]
fn test_recurse() {
    let mut directory_nav = DirNav::<Test>::new();
    directory_nav.add_patterns("rs");
    directory_nav.add_patterns("bin");
    directory_nav.add_patterns("out");

    directory_nav.set_recursive_search();

    let res = directory_nav.visit(&setup());
    assert!(res.is_ok(), "Visit received error {:#?}", res.err());

    let res = &directory_nav.get_app().results;

    assert!(contains(res, "test_file.rs"));
    assert!(contains(res, "test_file1.rs"));
    assert!(contains(res, "test_file2.bin"));
    assert!(contains(res, "test_file4.out"));

    // txt was not part of pattern
    assert_eq!(contains(res, "test_file3.txt"), false);
}

#[test]
fn test_searchpatterns() {
    let mut directory_nav = DirNav::<Test>::new();
    directory_nav.add_patterns("rs");
    directory_nav.add_patterns("bin");
    directory_nav.add_patterns("out");

    assert_eq!(directory_nav.get_patterns().len(), 3);

    directory_nav.reset();

    assert_eq!(directory_nav.get_patterns().len(), 0);
}

#[test]
fn small_tree_without_recursion_reports_the_root_alone() {
    let mut nav = DirNav::<Test>::new();
    nav.add_patterns("rs");
    assert_eq!(nav.visit(&small_tree()), Ok(()));
    assert_eq!(nav.get_number_of_dirs_processed(), 1);
    assert_eq!(nav.get_number_of_files_processed(), 1);
    assert_eq!(nav.get_app().results, vec!["a.rs".to_string()]);
    assert_eq!(nav.get_app().dirs, vec!["root".to_string()]);
}

#[test]
fn small_tree_with_recursion_reports_every_rs_file() {
    let mut nav = DirNav::<Test>::new();
    nav.add_patterns("rs");
    nav.set_recursive_search();
    assert_eq!(nav.visit(&small_tree()), Ok(()));
    assert_eq!(nav.get_number_of_dirs_processed(), 3);
    assert_eq!(nav.get_number_of_files_processed(), 4);
    assert_eq!(nav.get_app().results, vec!["a.rs".to_string(), "b.rs".to_string()]);
    assert_eq!(
        nav.get_app().dirs,
        vec!["root".to_string(), "root/sub1".to_string(), "root/sub2".to_string()]
    );
}

#[test]
fn without_patterns_every_file_of_the_root_is_reported() {
    let mut nav = DirNav::<Test>::new();
    let tree = dir(
        "root",
        vec![
            file("a.rs"),
            file("Makefile"),
            Entry::Dir(dir("root/sub", vec![file("b.rs")])),
            file("c.tar.gz"),
            file(".hidden"),
        ],
    );
    assert_eq!(nav.visit(&tree), Ok(()));
    assert_eq!(
        nav.get_app().results,
        vec![
            "a.rs".to_string(),
            "Makefile".to_string(),
            "c.tar.gz".to_string(),
            ".hidden".to_string()
        ]
    );
    assert_eq!(nav.get_number_of_files_processed(), 4);
    assert_eq!(nav.get_number_of_dirs_processed(), 1);
}

#[test]
fn files_are_counted_whether_reported_or_not() {
    let mut nav = DirNav::<Test>::new();
    nav.add_patterns("txt");
    nav.set_recursive_search();
    assert_eq!(nav.visit(&small_tree()), Ok(()));
    assert_eq!(nav.get_number_of_files_processed(), 4);
    assert_eq!(nav.get_app().results, vec!["d.txt".to_string()]);
}

#[test]
fn extension_is_what_follows_the_last_dot() {
    let mut nav = DirNav::<Test>::new();
    nav.add_patterns("gz");
    nav.add_patterns("hidden");
    let named = |name: &str| FileEntry { name: name.to_string(), content: FileContent::Unopenable };
    assert!(nav.has_pattern(&named("c.tar.gz")));
    assert!(!nav.has_pattern(&named("c.tar")));
    assert!(!nav.has_pattern(&named("gz")));
    assert!(!nav.has_pattern(&named(".hidden")));
    assert!(!nav.has_pattern(&named("Makefile")));
    assert!(nav.has_pattern(&named("x.hidden")));
}

#[test]
fn a_file_is_reported_if_there_is_no_pattern_or_its_extension_is_one() {
    let named = |name: &str| FileEntry { name: name.to_string(), content: FileContent::Unopenable };
    let mut nav = DirNav::<Test>::new();
    assert!(nav.reports(&named("a.rs")));
    assert!(nav.reports(&named("Makefile")));
    nav.add_patterns("rs");
    assert!(nav.reports(&named("a.rs")));
    assert!(!nav.reports(&named("a.txt")));
    assert!(!nav.reports(&named("Makefile")));
}

#[test]
fn extension_is_compared_exactly() {
    let mut nav = DirNav::<Test>::new();
    nav.add_patterns("rs");
    let named = |name: &str| FileEntry { name: name.to_string(), content: FileContent::Unopenable };
    assert!(nav.has_pattern(&named("a.rs")));
    assert!(!nav.has_pattern(&named("a.RS")));
    assert!(!nav.has_pattern(&named("a.rss")));
    assert!(!nav.has_pattern(&named("a.r")));
    assert!(nav.lists_extension(&Some("rs".to_string())));
    assert!(!nav.lists_extension(&Some("*".to_string())));
    assert!(!nav.lists_extension(&None));
}

#[test]
fn a_file_without_extension_matches_no_pattern() {
    let mut nav = DirNav::<Test>::new();
    nav.add_patterns("rs");
    nav.add_patterns("");
    let tree = dir("root", vec![file("Makefile"), file("a.rs")]);
    assert_eq!(nav.visit(&tree), Ok(()));
    assert_eq!(nav.get_app().results, vec!["a.rs".to_string()]);
    assert_eq!(nav.get_number_of_files_processed(), 2);
}

#[test]
fn a_path_that_is_no_directory_is_refused_unheard() {
    let mut nav = DirNav::<Test>::new();
    let missing = Location { path: "./nowhere".to_string(), listing: None };
    assert_eq!(nav.visit(&missing), Err(WalkError::NotADirectory));
    assert!(nav.get_app().dirs.is_empty());
    assert!(nav.get_app().results.is_empty());
    assert_eq!(nav.get_number_of_dirs_processed(), 0);
    assert_eq!(nav.get_number_of_files_processed(), 0);
}

#[test]
fn a_listing_that_breaks_off_ends_the_walk() {
    let mut nav = DirNav::<Test>::new();
    nav.set_recursive_search();
    let tree = dir(
        "root",
        vec![
            file("a.rs"),
            Entry::Dir(dir("root/sub", vec![file("b.rs")])),
            Entry::Failed("permission denied".to_string()),
            file("c.rs"),
        ],
    );
    assert_eq!(nav.visit(&tree), Err(WalkError::Enumeration("permission denied".to_string())));
    assert_eq!(nav.get_app().dirs, vec!["root".to_string()]);
    assert_eq!(nav.get_app().results, vec!["a.rs".to_string()]);
    assert_eq!(nav.get_number_of_dirs_processed(), 1);
    assert_eq!(nav.get_number_of_files_processed(), 1);
}

#[test]
fn a_failure_below_ends_the_walk_above() {
    let mut nav = DirNav::<Test>::new();
    nav.set_recursive_search();
    let tree = dir(
        "root",
        vec![
            file("a.rs"),
            Entry::Dir(dir("root/one", vec![file("b.rs")])),
            Entry::Dir(Location { path: "root/gone".to_string(), listing: None }),
            Entry::Dir(dir("root/two", vec![file("c.rs")])),
        ],
    );
    assert_eq!(nav.visit(&tree), Err(WalkError::NotADirectory));
    assert_eq!(nav.get_app().dirs, vec!["root".to_string(), "root/one".to_string()]);
    assert_eq!(nav.get_app().results, vec!["a.rs".to_string(), "b.rs".to_string()]);
    assert_eq!(nav.get_number_of_dirs_processed(), 2);
    assert_eq!(nav.get_number_of_files_processed(), 2);
}

#[test]
fn without_recursion_a_broken_sub_directory_does_no_harm() {
    let mut nav = DirNav::<Test>::new();
    let tree = dir(
        "root",
        vec![
            Entry::Dir(Location { path: "root/gone".to_string(), listing: None }),
            file("a.rs"),
        ],
    );
    assert_eq!(nav.visit(&tree), Ok(()));
    assert_eq!(nav.get_app().results, vec!["a.rs".to_string()]);
}

#[test]
fn the_files_of_a_directory_come_before_its_sub_directories() {
    let mut nav = DirNav::<Test>::new();
    nav.set_recursive_search();
    let tree = dir(
        "root",
        vec![
            Entry::Dir(dir(
                "root/one",
                vec![Entry::Dir(dir("root/one/deep", vec![file("d")])), file("b")],
            )),
            file("a"),
            Entry::Dir(dir("root/two", vec![file("c")])),
        ],
    );
    assert_eq!(nav.visit(&tree), Ok(()));
    assert_eq!(
        nav.get_app().results,
        vec!["a".to_string(), "b".to_string(), "d".to_string(), "c".to_string()]
    );
    assert_eq!(
        nav.get_app().dirs,
        vec![
            "root".to_string(),
            "root/one".to_string(),
            "root/one/deep".to_string(),
            "root/two".to_string()
        ]
    );
    assert_eq!(nav.get_number_of_dirs_processed(), 4);
    assert_eq!(nav.get_number_of_files_processed(), 4);
}

#[test]
fn counts_add_up_over_walks() {
    let mut nav = DirNav::<Test>::new();
    nav.set_recursive_search();
    assert_eq!(nav.visit(&small_tree()), Ok(()));
    assert_eq!(nav.visit(&small_tree()), Ok(()));
    assert_eq!(nav.get_number_of_dirs_processed(), 6);
    assert_eq!(nav.get_number_of_files_processed(), 8);
}

#[test]
fn reset_gives_a_new_walker() {
    let mut nav = DirNav::<Test>::new();
    nav.add_patterns("rs");
    nav.set_recursive_search();
    assert_eq!(nav.visit(&small_tree()), Ok(()));
    nav.reset();
    assert_eq!(nav.get_patterns().len(), 0);
    assert_eq!(nav.get_number_of_dirs_processed(), 0);
    assert_eq!(nav.get_number_of_files_processed(), 0);
    assert!(nav.get_app().results.is_empty());
    nav.reset();
    assert_eq!(nav.get_number_of_dirs_processed(), 0);

    // no patterns and no recursion, as in a new walker
    let mut fresh = DirNav::<Test>::new();
    assert_eq!(nav.visit(&small_tree()), Ok(()));
    assert_eq!(fresh.visit(&small_tree()), Ok(()));
    assert_eq!(nav.get_app().results, fresh.get_app().results);
    assert_eq!(nav.get_app().results, vec!["a.rs".to_string()]);
    assert_eq!(nav.get_number_of_dirs_processed(), 1);
    assert_eq!(nav.get_number_of_files_processed(), 1);
}

#[test]
fn patterns_can_be_changed_in_place() {
    let mut nav = DirNav::<Test>::new();
    nav.add_patterns("rs");
    nav.get_patterns().push("txt".to_string());
    nav.get_patterns().remove(0);
    nav.set_recursive_search();
    assert_eq!(nav.visit(&small_tree()), Ok(()));
    assert_eq!(nav.get_app().results, vec!["d.txt".to_string()]);
}

#[test]
fn recursion_is_off_until_it_is_set() {
    let mut nav = DirNav::<Test>::new();
    assert!(!nav.is_recursive());
    nav.set_recursive_search();
    assert!(nav.is_recursive());
    nav.reset();
    assert!(!nav.is_recursive());
}

#[test]
fn default_is_a_new_walker() {
    let mut nav: DirNav<Test> = Default::default();
    assert_eq!(nav.get_patterns().len(), 0);
    assert_eq!(nav.get_number_of_dirs_processed(), 0);
    assert_eq!(nav.get_number_of_files_processed(), 0);
}

#[test]
fn walk_errors_say_what_happened() {
    assert_eq!(WalkError::NotADirectory.message(), "Not a directory");
    assert_eq!(WalkError::Enumeration("entry vanished".to_string()).message(), "entry vanished");
}
