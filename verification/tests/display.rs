use text_finder::display::Display;
use text_finder::text_search::SearchEvent;

#[test]
fn test_set_dir() {
    let mut app = Display::new();

    assert_eq!(app.current_directory(), "");

    app.set_dir("./");

    assert_eq!(app.current_directory(), "./");
    assert_eq!(app.display_directory(), true);

    app.set_file(("display.rs", true, "Display"));

    assert_eq!(app.current_directory(), "./");
    assert_eq!(app.display_directory(), false);

    app.set_dir("../");

    assert_eq!(app.current_directory(), "../");
    assert_eq!(app.display_directory(), true);
}

#[test]
fn test_set_file() {
    let mut app = Display::new();
    app.set_dir("./");

    assert_eq!(app.current_file(), "");
    assert_eq!(app.search_text(), "");
    assert_eq!(app.found(), false);

    app.set_file(("display.rs", true, "Display"));

    assert_eq!(app.current_file(), "display.rs");
    assert_eq!(app.search_text(), "Display");
    assert_eq!(app.found(), true);

    app.set_file(("display2.rs", false, "Display"));

    assert_eq!(app.current_file(), "display2.rs");
    assert_eq!(app.search_text(), "Display");
    assert_eq!(app.found(), false);
}

#[test]
fn the_directory_is_shown_once_before_its_first_match() {
    let mut app = Display::new();
    app.set_dir("one");
    app.set_file(("a", false, "x"));
    assert!(app.lines().is_empty());
    assert_eq!(app.display_directory(), true);
    app.set_file(("b", true, "x"));
    app.set_file(("c", true, "x"));
    app.set_dir("two");
    app.set_file(("d", false, "x"));
    app.set_dir("three");
    app.set_file(("e", true, "x"));
    assert_eq!(
        *app.lines(),
        vec![
            "one".to_string(),
            "b".to_string(),
            "c".to_string(),
            "three".to_string(),
            "e".to_string()
        ]
    );
}

#[test]
fn without_a_match_nothing_is_shown() {
    let mut app = Display::new();
    app.set_dir("one");
    app.set_file(("a", false, "x"));
    app.set_file(("b", false, "Cannot Open File"));
    app.set_dir("two");
    assert!(app.lines().is_empty());
}

#[test]
fn a_match_before_any_directory_is_shown_alone() {
    let mut app = Display::new();
    assert_eq!(app.display_directory(), false);
    app.set_file(("a", true, "x"));
    assert_eq!(*app.lines(), vec!["a".to_string()]);
}
