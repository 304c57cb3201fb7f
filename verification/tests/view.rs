use lore::model::{CommandBody, Entry, Layer, ParamSpec, ShellFamily};
use lore::tui::app::{App, Key, KeyCode, Mode, SaveStep, Step};
use lore::tui::form::Field;
use lore::tui::view::{
    browse_hints, detail_lines, field_line, form_hints, highlighted, hint_line, hints_width,
    prompt_line, rail_width, row_line, save_hints, save_lines, saving_hints, tail, truncate, Colour,
    Columns, Piece, RowText, Style, BUILTIN, HINT_GAP, RAIL_MAX, SELECTION,
};

#[test]
fn the_column_ignores_which_rows_are_on_screen() {
    let all = [10, 12, 14, 60, 11];
    let window = [10, 12];

    assert_ne!(Columns::fit(&all, 100).command, Columns::fit(&window, 100).command);
}

#[test]
fn one_long_command_does_not_hold_the_column_open() {
    let lengths = [8, 9, 10, 11, 120];
    assert!(Columns::fit(&lengths, 100).command < 100);
}

#[test]
fn no_hint_line_outgrows_a_narrow_terminal() {
    let lines = [
        browse_hints(),
        form_hints("back"),
        saving_hints(),
        save_hints(SaveStep::Command),
        save_hints(SaveStep::Purpose),
    ];

    for hints in lines {
        let width = hints.iter().map(|(chord, action)| chord.len() + 1 + action.len()).sum::<usize>()
            + HINT_GAP.len() * (hints.len() - 1);

        assert!(width <= 80, "{hints:?} is {width} columns");
        assert_eq!(hints_width(&hints), width);
    }
}

#[test]
fn a_value_longer_than_the_rail_shows_its_end() {
    assert_eq!(tail("kubectl logs -f api-0", 10), "..-f api-0");
    assert_eq!(tail("ls", 10), "ls");
}

#[test]
fn the_rail_never_outgrows_its_maximum() {
    assert_eq!(rail_width(500), RAIL_MAX);
    assert!(rail_width(30) < RAIL_MAX);
    assert!(rail_width(0) >= 1);
}

#[test]
fn the_column_is_sized_for_most_commands() {
    let columns = Columns::fit(&[8, 9, 10, 11, 120], 100);
    assert_eq!(columns.room, 95);
    assert_eq!(columns.command, 57);
    assert_eq!(columns.description(), 35);
    assert_eq!(Columns::fit(&[], 100).command, 1);
    assert_eq!(Columns::fit(&[30], 3).room, 0);
}

#[test]
fn a_long_text_is_cut_with_a_mark() {
    assert_eq!(truncate("docker compose logs", 10), "docker c..");
    assert_eq!(truncate("ls", 10), "ls");
    assert_eq!(truncate("ls -la", 1), "");
    assert_eq!(tail("ls -la", 1), "");
}

fn row(selected: bool) -> RowText {
    RowText {
        selected,
        cmd: "git log".to_string(),
        desc: "Show history".to_string(),
        danger: false,
        pinned: false,
        layer: Layer::User,
    }
}

fn builtin(selected: bool) -> RowText {
    RowText { layer: Layer::Builtin, ..row(selected) }
}

fn columns() -> Columns {
    Columns { command: 20, room: 60 }
}

fn command_colour(text: &RowText) -> Option<Colour> {
    row_line(text, &[], columns())
        .iter()
        .find(|span| span.text.contains("git log"))
        .expect("the command is drawn")
        .style
        .fg
}

fn drawn(line: &[Piece]) -> String {
    line.iter().map(|span| span.text.as_str()).collect()
}

/// Every visible piece of the selected row carries the same colour, so the
/// eye does not have to travel the gap to pair a command with its
/// description.
#[test]
fn the_selected_row_is_one_colour_throughout() {
    for text in [row(true), builtin(true)] {
        for span in &row_line(&text, &[], columns()) {
            if span.text.trim().is_empty() {
                continue;
            }
            assert_eq!(span.style.fg, Some(SELECTION), "{:?} is not part of the selected colour", span.text);
        }
    }
}

/// A pin is a preference and danger is a warning, so one must never hide
/// the other.
#[test]
fn a_pinned_destructive_row_shows_both_markers() {
    let mut entry = row(false);
    entry.pinned = true;
    entry.danger = true;

    let drawn = drawn(&row_line(&entry, &[], columns()));
    assert!(drawn.starts_with("  *! git log"), "drawn as {drawn:?}");
}

#[test]
fn markers_hold_their_width_when_a_row_has_none() {
    let plain = drawn(&row_line(&row(false), &[], columns()));
    assert!(plain.starts_with("     git log"), "drawn as {plain:?}");
}

#[test]
fn a_command_of_your_own_is_drawn_plainly() {
    assert_eq!(command_colour(&row(false)), None);
}

/// The shipped set is a starting point rather than the point, so it has to
/// be tellable from the user's own library at a glance.
#[test]
fn a_builtin_recedes_behind_what_the_user_saved() {
    assert_eq!(command_colour(&builtin(false)), Some(BUILTIN));
}

#[test]
fn a_row_lines_its_description_up_after_the_command_column() {
    let drawn = drawn(&row_line(&row(false), &[], columns()));
    assert_eq!(drawn, format!("     {:<20}   Show history", "git log"));
}

#[test]
fn a_row_without_room_for_its_description_shows_the_command_alone() {
    let narrow = Columns { command: 20, room: 24 };
    assert_eq!(drawn(&row_line(&row(false), &[], narrow)), "     git log");
}

#[test]
fn matched_characters_are_drawn_in_runs() {
    let base = Style { fg: None, bold: false, underlined: false, dim: false };
    let accent = Style { fg: Some(Colour::Cyan), bold: true, underlined: false, dim: false };
    let pieces = highlighted("docker ps", &[0, 7, 8], base, accent);
    let texts: Vec<&str> = pieces.iter().map(|p| p.text.as_str()).collect();
    assert_eq!(texts, ["d", "ocker ", "ps"]);
    assert_eq!(pieces[0].style, accent);
    assert_eq!(pieces[1].style, base);
    assert_eq!(pieces[2].style, accent);
    assert!(highlighted("", &[0], base, accent).is_empty());
}

fn field(label: &str, value: &str) -> Field {
    Field::new(label, value)
}

/// A field with nothing in it still has to be somewhere on the screen.
#[test]
fn an_empty_field_is_drawn_as_a_rail() {
    let line = field_line(&field("description", ""), false, 10);
    assert_eq!(drawn(&line), format!("  {:<14}__________", "description"));
}

/// The caret is the one part of the rail the eye is meant to land on, so it
/// stays out of the dim run the rest of the rail is drawn in.
#[test]
fn the_focused_field_holds_a_caret_at_the_end_of_its_value() {
    let line = field_line(&field("command", "ls"), true, 10);

    assert_eq!(drawn(&line), format!("  {:<14}ls________", "command"));
    let caret = line.iter().find(|span| span.text == "_").expect("the caret is drawn");
    assert!(!caret.style.dim);
}

#[test]
fn the_line_being_typed_into_carries_a_caret() {
    assert_eq!(drawn(&prompt_line("find: ", "git", true)), "find: git_");
    assert_eq!(drawn(&prompt_line("save: ", "git", false)), "save: git");
}

fn entry(id: &str, cmd: &str, desc: &str) -> Entry {
    Entry {
        id: id.to_string(),
        cmd: CommandBody::Shared(cmd.to_string()),
        desc: desc.to_string(),
        tags: Vec::new(),
        params: Vec::new(),
        danger: false,
        layer: Layer::Builtin,
    }
}

#[test]
fn the_detail_panel_documents_each_placeholder() {
    let mut logs = entry("k8s.logs", "kubectl logs <pod> -n <namespace>", "Follow pod logs");
    logs.danger = true;
    logs.params.push(("pod".to_string(), ParamSpec { desc: Some("Pod to follow".to_string()), from: None }));
    let app = App::new(vec![logs], ShellFamily::Posix, Vec::new(), Vec::new());
    let lines: Vec<String> = detail_lines(&app).iter().map(|l| drawn(l)).collect();
    assert_eq!(
        lines,
        [
            "kubectl logs <pod> -n <namespace>",
            "Follow pod logs",
            "This command is destructive",
            "<pod> Pod to follow",
            "<namespace> no description",
        ]
    );
}

#[test]
fn the_detail_panel_says_when_nothing_matches() {
    let app = App::new(Vec::new(), ShellFamily::Posix, Vec::new(), Vec::new());
    let lines: Vec<String> = detail_lines(&app).iter().map(|l| drawn(l)).collect();
    assert_eq!(lines, ["Nothing matches that query"]);
}

#[test]
fn the_hint_line_gives_way_to_a_status() {
    let mut app = App::new(vec![entry("git.log", "git log", "Show history")], ShellFamily::Posix, Vec::new(), Vec::new());
    assert_eq!(drawn(&hint_line(&app)), "enter insert   esc close   ^s save   ^e edit   ^p pin   ^x remove");
    let step = app.on_key(Key { code: KeyCode::Char('x'), control: true });
    assert!(matches!(step, Step::Stay));
    let status = hint_line(&app);
    assert_eq!(drawn(&status), "Remove git.log? ctrl+x again to confirm");
    assert_eq!(status[0].style.fg, Some(Colour::Yellow));
}

#[test]
fn saving_says_where_its_command_came_from() {
    let mut app = App::new(
        vec![entry("git.log", "git log", "Show history")],
        ShellFamily::Posix,
        Vec::new(),
        vec!["kics scan -p .".to_string(), "git log".to_string()],
    );
    app.on_key(Key { code: KeyCode::Char('s'), control: true });
    let Mode::Save(save) = app.mode() else { panic!("expected to be saving") };
    let (heading, body) = save_lines(&app, save);
    assert_eq!(drawn(&heading), "save: kics scan -p ._");
    assert_eq!(drawn(&body[0]), "      the newest command your shell has");

    app.on_key(Key { code: KeyCode::Up, control: false });
    let Mode::Save(save) = app.mode() else { panic!("expected to be saving") };
    let (_, body) = save_lines(&app, save);
    assert_eq!(drawn(&body[0]), "      already in your library");

    app.on_key(Key { code: KeyCode::Enter, control: false });
    for c in "Show #vcs".chars() {
        app.on_key(Key { code: KeyCode::Char(c), control: false });
    }
    let Mode::Save(save) = app.mode() else { panic!("expected to be saving") };
    let (heading, body) = save_lines(&app, save);
    assert_eq!(drawn(&heading), "save: git log");
    assert_eq!(drawn(&body[0]), " for: Show #vcs_");
    assert_eq!(drawn(&body[1]), "      tags: vcs, git, log");
}
