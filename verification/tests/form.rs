use lore::tui::form::{Choice, Field, Form};

fn form() -> Form {
    Form::new("test", vec![Field::new("first", ""), Field::new("second", "seed")])
}

fn with_choices() -> Form {
    Form::new(
        "test",
        vec![
            Field::new("command", "docker ps -a").with_choices(vec![
                Choice::new("git log --oneline", None),
                Choice::new("docker ps -a", Some("already saved".to_string())),
                Choice::new("cargo test", None),
            ]),
            Field::new("description", ""),
        ],
    )
}

#[test]
fn advancing_stops_on_the_last_field() {
    let mut form = form();
    assert!(!form.advance());
    assert_eq!(form.focused, 1);
    assert!(form.advance());
    assert_eq!(form.focused, 1);
}

#[test]
fn retreating_stops_on_the_first_field() {
    let mut form = form();
    form.advance();
    form.retreat();
    form.retreat();
    assert_eq!(form.focused, 0);
}

#[test]
fn editing_touches_only_the_focused_field() {
    let mut form = form();
    form.insert('a');
    form.insert('b');
    form.backspace();
    assert_eq!(form.value(0), "a");
    assert_eq!(form.value(1), "seed");
}

#[test]
fn clearing_empties_the_focused_field() {
    let mut form = form();
    form.advance();
    form.clear();
    assert_eq!(form.value(1), "");
}

#[test]
fn a_field_with_no_choices_has_no_list_to_open() {
    let mut form = form();
    assert!(!form.open_picker("Recent commands"));
    assert!(form.picking.is_none());
}

#[test]
fn the_list_opens_on_the_value_the_field_already_holds() {
    let mut form = with_choices();
    assert!(form.open_picker("Recent commands"));
    assert_eq!(form.picking.as_ref().unwrap().selected, 1);
}

#[test]
fn accepting_writes_the_highlighted_choice_into_the_field() {
    let mut form = with_choices();
    form.open_picker("Recent commands");
    form.move_pick(1);
    form.accept_pick();

    assert_eq!(form.value(0), "cargo test");
    assert!(form.picking.is_none());
}

#[test]
fn cancelling_leaves_the_field_as_it_was() {
    let mut form = with_choices();
    form.open_picker("Recent commands");
    form.move_pick(-1);
    form.cancel_pick();

    assert_eq!(form.value(0), "docker ps -a");
    assert!(form.picking.is_none());
}

#[test]
fn the_filter_narrows_the_list() {
    let mut form = with_choices();
    form.open_picker("Recent commands");
    for character in "car".chars() {
        form.filter_insert(character);
    }

    assert_eq!(form.visible().len(), 1);
    form.accept_pick();
    assert_eq!(form.value(0), "cargo test");
}

#[test]
fn a_filter_matching_nothing_leaves_the_list_usable() {
    let mut form = with_choices();
    form.open_picker("Recent commands");
    for character in "zzzz".chars() {
        form.filter_insert(character);
    }

    assert!(form.visible().is_empty());
    assert_eq!(form.picking.as_ref().unwrap().selected, 0);

    form.accept_pick();
    assert!(form.picking.is_some());
    assert_eq!(form.value(0), "docker ps -a");

    form.filter_clear();
    assert_eq!(form.visible().len(), 3);
}

#[test]
fn the_cursor_stays_inside_the_list() {
    let mut form = with_choices();
    form.open_picker("Recent commands");

    form.move_pick(10);
    assert_eq!(form.picking.as_ref().unwrap().selected, 2);
    form.move_pick(-10);
    assert_eq!(form.picking.as_ref().unwrap().selected, 0);
}

#[test]
fn backspacing_the_filter_widens_the_list_again() {
    let mut form = with_choices();
    form.open_picker("Recent commands");
    form.filter_insert('c');
    form.filter_insert('a');
    form.filter_insert('r');
    assert_eq!(form.visible().len(), 1);
    form.filter_backspace();
    form.filter_backspace();
    assert_eq!(form.visible().len(), 2);
}

#[test]
fn a_field_carries_its_hint() {
    let field = Field::new("port", "8080").with_hint(Some("Port to look for".to_string()));
    assert_eq!(field.hint.as_deref(), Some("Port to look for"));
    assert_eq!(field.value, "8080");
}

#[test]
fn the_focused_field_can_be_reached_directly() {
    let mut form = form();
    form.advance();
    form.focused().value.push('!');
    assert_eq!(form.value(1), "seed!");
}
