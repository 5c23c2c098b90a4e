use meilisearch_cli::{Document, TerminalApp};

fn app_with(n: usize) -> TerminalApp {
    let mut app = TerminalApp::default();
    for k in 0..n {
        let mut d = Document::new();
        d.title = format!("t{}", k);
        d.id = format!("id{}", k);
        d.parentid = format!("id{}", k);
        d.body = format!("body{}", k);
        app.matches.push(d);
    }
    app
}

#[test]
fn next_wraps_around() {
    let mut app = app_with(3);
    app.next();
    assert_eq!(app.selected, Some(0));
    app.next();
    assert_eq!(app.selected, Some(1));
    app.next();
    assert_eq!(app.selected, Some(2));
    app.next();
    assert_eq!(app.selected, Some(0));
}

#[test]
fn previous_wraps_around() {
    let mut app = app_with(3);
    app.previous();
    assert_eq!(app.selected, Some(0));
    app.previous();
    assert_eq!(app.selected, Some(2));
    app.previous();
    assert_eq!(app.selected, Some(1));
}

#[test]
fn selection_accessors() {
    let mut app = app_with(2);
    assert_eq!(app.get_selected(), Vec::<String>::new());
    assert_eq!(app.get_selected_contents(), "");
    app.next();
    assert_eq!(app.get_selected(), vec![String::from("id0")]);
    let contents = app.get_selected_contents();
    assert!(contents.contains("title: t0"));
    assert!(contents.ends_with("---\nbody0"));
}
