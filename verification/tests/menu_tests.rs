use peg_solitaire::menu::App;

fn names() -> Vec<String> {
    vec![String::from("Triangle"), String::from("English")]
}

#[test]
fn new_menu_has_no_selection() {
    let app = App::new(names());
    assert_eq!(app.selected, None);
    assert_eq!(app.items.len(), 2);
    assert_eq!(app.items[0], "Triangle");
    assert_eq!(app.items[1], "English");
}

#[test]
fn next_wraps_to_top() {
    let mut app = App::new(names());
    app.next();
    assert_eq!(app.selected, Some(0));
    app.next();
    assert_eq!(app.selected, Some(1));
    app.next();
    assert_eq!(app.selected, Some(0));
}

#[test]
fn previous_wraps_to_bottom() {
    let mut app = App::new(names());
    app.previous();
    assert_eq!(app.selected, Some(0));
    app.previous();
    assert_eq!(app.selected, Some(1));
    app.previous();
    assert_eq!(app.selected, Some(0));
}

#[test]
fn single_entry_menu_stays_put() {
    let mut app = App::new(vec![String::from("Triangle")]);
    app.next();
    assert_eq!(app.selected, Some(0));
    app.next();
    assert_eq!(app.selected, Some(0));
    app.previous();
    assert_eq!(app.selected, Some(0));
}
