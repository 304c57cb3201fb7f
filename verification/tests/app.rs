use lore::model::{CommandBody, Entry, Layer, Library, ParamSpec, ShellFamily};
use lore::search::Standing;
use lore::store::definitions::{appended, removed, upserted, with_disabled, NewEntry};
use lore::store::layers::merge;
use lore::store::patterns::PathStyle;
use lore::tui::app::{
    prepare_history, App, Key, KeyCode, Mode, Outcome, Save, SaveStep, Step, HISTORY_LIMIT,
    NO_COMMAND,
};
use serde_yaml_ng::{Mapping, Value};

// ---------------------------------------------------------------------------
// A picker with the work it asks for done in memory: the user's library is a
// text, the usage statistics a list.
// ---------------------------------------------------------------------------

struct Picker {
    app: App,
    /// What the picker opened with, loaded again under the user's library.
    builtins: Vec<Entry>,
    /// The user's library file.
    text: String,
    /// Whether anything was ever written to it.
    written: bool,
    /// Score and pin of each entry that has one.
    stats: Vec<(String, f64, bool)>,
    /// Values last given to each entry's placeholders.
    remembered: Vec<(String, String, String)>,
}

fn string(v: &Value) -> String {
    v.as_str().expect("a string").to_string()
}

fn entry_of(item: &Value) -> Entry {
    let cmd = match &item["cmd"] {
        Value::String(s) => CommandBody::Shared(s.clone()),
        Value::Mapping(m) => CommandBody::PerShell(
            m.iter()
                .map(|(k, v)| {
                    let family = match k.as_str() {
                        Some("posix") => ShellFamily::Posix,
                        _ => ShellFamily::PowerShell,
                    };
                    (family, string(v))
                })
                .collect(),
        ),
        other => panic!("not a command: {other:?}"),
    };
    let tags = match &item["tags"] {
        Value::Sequence(s) => s.iter().map(string).collect(),
        _ => Vec::new(),
    };
    let params = match &item["params"] {
        Value::Mapping(m) => m
            .iter()
            .map(|(k, v)| {
                (
                    string(k),
                    ParamSpec {
                        desc: v["desc"].as_str().map(String::from),
                        from: v["from"].as_str().map(String::from),
                    },
                )
            })
            .collect(),
        _ => Vec::new(),
    };
    Entry {
        id: string(&item["id"]),
        cmd,
        desc: string(&item["desc"]),
        tags,
        params,
        danger: item["danger"].as_bool().unwrap_or(false),
        layer: Layer::User,
    }
}

fn user_library(text: &str) -> Library {
    if text.trim().is_empty() {
        return Library { version: 1, commands: Vec::new(), disabled: Vec::new() };
    }
    let doc: Value = serde_yaml_ng::from_str(text).expect("the library should still be YAML");
    let commands = match &doc["commands"] {
        Value::Sequence(items) => items.iter().map(entry_of).collect(),
        _ => Vec::new(),
    };
    let disabled = match &doc["disabled"] {
        Value::Sequence(items) => items.iter().map(string).collect(),
        _ => Vec::new(),
    };
    Library { version: 1, commands, disabled }
}

fn body(entry: &NewEntry) -> String {
    let mut m = Mapping::new();
    m.insert(Value::from("id"), Value::from(entry.id.clone()));
    let cmd = match &entry.cmd {
        CommandBody::Shared(s) => Value::from(s.clone()),
        CommandBody::PerShell(variants) => {
            let mut v = Mapping::new();
            for (family, text) in variants {
                let key = match family {
                    ShellFamily::Posix => "posix",
                    ShellFamily::PowerShell => "powershell",
                };
                v.insert(Value::from(key), Value::from(text.clone()));
            }
            Value::Mapping(v)
        }
    };
    m.insert(Value::from("cmd"), cmd);
    m.insert(Value::from("desc"), Value::from(entry.desc.clone()));
    if !entry.tags.is_empty() {
        let tags: Vec<Value> = entry.tags.iter().map(|t| Value::from(t.clone())).collect();
        m.insert(Value::from("tags"), Value::Sequence(tags));
    }
    if !entry.params.is_empty() {
        let mut p = Mapping::new();
        for (name, spec) in &entry.params {
            let mut s = Mapping::new();
            if let Some(desc) = &spec.desc {
                s.insert(Value::from("desc"), Value::from(desc.clone()));
            }
            p.insert(Value::from(name.clone()), Value::Mapping(s));
        }
        m.insert(Value::from("params"), Value::Mapping(p));
    }
    if entry.danger {
        m.insert(Value::from("danger"), Value::from(true));
    }
    serde_yaml_ng::to_string(&Value::Mapping(m)).unwrap()
}

impl Picker {
    fn new(entries: Vec<Entry>, history: Vec<String>) -> Picker {
        let builtins = entries.clone();
        let app = App::new(entries, ShellFamily::Posix, Vec::new(), history);
        Picker { app, builtins, text: String::new(), written: false, stats: Vec::new(), remembered: Vec::new() }
    }

    fn scores(&self) -> Vec<(String, Standing)> {
        self.stats
            .iter()
            .map(|(id, value, pinned)| (id.clone(), Standing { pinned: *pinned, frecency: value.to_bits() }))
            .collect()
    }

    fn has_score(&self, id: &str) -> bool {
        self.stats.iter().any(|(i, _, _)| i == id)
    }

    fn record(&mut self, id: &str, value: f64, add: bool) {
        match self.stats.iter_mut().find(|(i, _, _)| i == id) {
            Some(s) => s.1 = if add { s.1 + value } else { value },
            None => self.stats.push((id.to_string(), value, false)),
        }
    }

    fn reload(&self) -> Vec<Entry> {
        let builtin = Library { version: 1, commands: self.builtins.clone(), disabled: Vec::new() };
        merge(vec![builtin, user_library(&self.text)], &PathStyle::current()).expect("the library loads")
    }

    fn append(&mut self, entry: &NewEntry) {
        self.text = appended(&self.text, &body(entry)).expect("appends");
        self.written = true;
    }

    fn on_key(&mut self, key: Key) -> Option<Outcome> {
        match self.app.on_key(key) {
            Step::Stay => None,
            Step::Finish(outcome) => Some(outcome),
            Step::Use { id, values, outcome } => {
                for (name, value) in values {
                    self.remembered.retain(|(i, n, _)| !(*i == id && *n == name));
                    self.remembered.push((id.clone(), name, value));
                }
                self.record(&id, 1.0, true);
                Some(outcome)
            }
            Step::Recall { id } => {
                let mut values: Vec<(String, String)> = self
                    .remembered
                    .iter()
                    .filter(|(i, _, _)| *i == id)
                    .map(|(_, n, v)| (n.clone(), v.clone()))
                    .collect();
                values.sort();
                self.app.recalled(&values);
                None
            }
            Step::Pin { id, pinned } => {
                match self.stats.iter_mut().find(|(i, _, _)| *i == id) {
                    Some(s) => s.2 = pinned,
                    None => self.stats.push((id.clone(), 0.0, pinned)),
                }
                let scores = self.scores();
                self.app.repinned(scores, &id, pinned);
                None
            }
            Step::Append(entry) => {
                self.append(&entry);
                self.record(&entry.id, 3.0, false);
                let (entries, scores) = (self.reload(), self.scores());
                self.app.saved(entries, scores, &entry.id);
                None
            }
            Step::Upsert { entry, shadowing } => {
                self.text = upserted(&self.text, &entry.id, &body(&entry)).expect("writes").0;
                self.written = true;
                let entries = self.reload();
                self.app.edited(entries, &entry.id, shadowing);
                None
            }
            Step::Remove { id, own } => {
                self.text = if own {
                    removed(&self.text, &id).expect("the entry is in the library")
                } else {
                    with_disabled(&self.text, &id).expect("disables")
                };
                self.written = true;
                self.stats.retain(|(i, _, _)| *i != id);
                self.remembered.retain(|(i, _, _)| *i != id);
                let (entries, scores) = (self.reload(), self.scores());
                self.app.removed(entries, scores, &id, own);
                None
            }
        }
    }
}

fn key(code: KeyCode) -> Key {
    Key { code, control: false }
}

fn ctrl(character: char) -> Key {
    Key { code: KeyCode::Char(character), control: true }
}

fn typed(p: &mut Picker, text: &str) {
    for character in text.chars() {
        p.on_key(key(KeyCode::Char(character)));
    }
}

fn insert(command: &str) -> Outcome {
    Outcome::Insert { command: command.to_string(), cursor: None }
}

fn entry(id: &str, cmd: &str, desc: &str) -> Entry {
    Entry {
        id: id.to_string(),
        cmd: CommandBody::Shared(cmd.to_string()),
        desc: desc.to_string(),
        tags: Vec::new(),
        params: Vec::new(),
        danger: false,
        layer: Layer::Builtin,
    }
}

fn app_with(entries: Vec<Entry>) -> Picker {
    app_with_history(entries, vec!["kics scan -p .".to_string()])
}

fn app_with_history(entries: Vec<Entry>, history: Vec<String>) -> Picker {
    Picker::new(entries, history)
}

fn history_sample() -> Picker {
    app_with_history(
        vec![entry("git.log", "git log --oneline", "Show history")],
        vec![
            "kics scan -p .".to_string(),
            "docker compose up -d".to_string(),
            "git log --oneline".to_string(),
        ],
    )
}

fn sample() -> Picker {
    app_with(vec![
        entry("git.log", "git log --oneline", "Show history"),
        entry("docker.ps", "docker ps -a", "List containers"),
        entry("k8s.logs", "kubectl logs -f <pod> -n <namespace:default>", "Follow pod logs"),
    ])
}

fn save_mode(p: &Picker) -> &Save {
    let Mode::Save(save) = p.app.mode() else {
        panic!("expected to be saving");
    };
    save
}

fn save_one(p: &mut Picker, description: &str) {
    p.on_key(ctrl('s'));
    p.on_key(key(KeyCode::Enter));
    typed(p, description);
    p.on_key(key(KeyCode::Enter));
}

fn has_row(p: &Picker, id: &str) -> bool {
    p.app.rows().iter().any(|row| row.entry.id == id)
}

// ---------------------------------------------------------------------------
// Browsing
// ---------------------------------------------------------------------------

#[test]
fn typing_filters_the_list() {
    let mut app = sample();
    assert_eq!(app.app.matches(), 3);
    typed(&mut app, "git");
    assert_eq!(app.app.matches(), 1);
    assert_eq!(app.app.selected_row().unwrap().entry.id, "git.log");
}

#[test]
fn backspace_widens_the_list_again() {
    let mut app = sample();
    typed(&mut app, "git");
    app.on_key(key(KeyCode::Backspace));
    app.on_key(key(KeyCode::Backspace));
    app.on_key(key(KeyCode::Backspace));
    assert_eq!(app.app.query(), "");
    assert_eq!(app.app.matches(), 3);
}

#[test]
fn selection_stays_inside_the_list() {
    let mut app = sample();
    for _ in 0..10 {
        app.on_key(key(KeyCode::Down));
    }
    assert_eq!(app.app.selected(), 2);
    for _ in 0..10 {
        app.on_key(key(KeyCode::Up));
    }
    assert_eq!(app.app.selected(), 0);
}

#[test]
fn a_narrowed_list_never_leaves_the_cursor_past_the_end() {
    let mut app = sample();
    app.on_key(key(KeyCode::Down));
    app.on_key(key(KeyCode::Down));
    typed(&mut app, "git");
    assert_eq!(app.app.selected(), 0);
    assert!(app.app.selected_row().is_some());
}

#[test]
fn enter_on_a_plain_command_returns_it() {
    let mut app = sample();
    typed(&mut app, "docker");
    let outcome = app.on_key(key(KeyCode::Enter));
    assert_eq!(outcome, Some(insert("docker ps -a")));
}

#[test]
fn escape_cancels_without_choosing() {
    let mut app = sample();
    assert_eq!(app.on_key(key(KeyCode::Esc)), Some(Outcome::Cancelled));
}

#[test]
fn the_opening_chord_also_closes_the_picker() {
    let mut app = sample();
    assert_eq!(app.on_key(ctrl('g')), Some(Outcome::Cancelled));
}

#[test]
fn ctrl_c_leaves_from_a_form_too() {
    let mut app = sample();
    typed(&mut app, "kubectl");
    app.on_key(key(KeyCode::Enter));
    assert!(matches!(app.app.mode(), Mode::Params { .. }));
    assert_eq!(app.on_key(ctrl('c')), Some(Outcome::Cancelled));
}

#[test]
fn a_query_matching_nothing_leaves_the_picker_usable() {
    let mut app = sample();
    typed(&mut app, "zzzzz");
    assert_eq!(app.app.matches(), 0);
    assert!(app.app.selected_row().is_none());
    assert_eq!(app.on_key(key(KeyCode::Enter)), None);
    app.on_key(key(KeyCode::Down));
    assert_eq!(app.app.selected(), 0);
}

#[test]
fn page_keys_move_ten_rows_at_most() {
    let entries: Vec<Entry> =
        (0..15).map(|n| entry(&format!("e{n:02}"), &format!("echo {n}"), "Say a number")).collect();
    let mut app = app_with(entries);
    app.on_key(key(KeyCode::PageDown));
    assert_eq!(app.app.selected(), 10);
    app.on_key(key(KeyCode::PageDown));
    assert_eq!(app.app.selected(), 14);
    app.on_key(key(KeyCode::PageUp));
    assert_eq!(app.app.selected(), 4);
    app.on_key(ctrl('j'));
    assert_eq!(app.app.selected(), 5);
    app.on_key(ctrl('k'));
    assert_eq!(app.app.selected(), 4);
}

#[test]
fn an_entry_without_a_command_for_this_shell_is_not_offered() {
    let only_powershell = Entry {
        cmd: CommandBody::PerShell(vec![(ShellFamily::PowerShell, "Get-Process".to_string())]),
        ..entry("ps.list", "", "List processes")
    };
    let app = app_with(vec![only_powershell, entry("git.log", "git log", "Show history")]);
    assert_eq!(app.app.matches(), 1);
    assert_eq!(app.app.selected_row().unwrap().entry.id, "git.log");
}

// ---------------------------------------------------------------------------
// Placeholders
// ---------------------------------------------------------------------------

#[test]
fn enter_on_a_parameterised_command_asks_for_values() {
    let mut app = sample();
    typed(&mut app, "kubectl");
    assert_eq!(app.on_key(key(KeyCode::Enter)), None);
    assert!(matches!(app.app.mode(), Mode::Params { .. }));
}

#[test]
fn placeholder_defaults_arrive_pre_filled() {
    let mut app = sample();
    typed(&mut app, "kubectl");
    app.on_key(key(KeyCode::Enter));

    let Mode::Params { form, .. } = app.app.mode() else {
        panic!("expected the parameter form");
    };
    assert_eq!(form.fields[0].label, "pod");
    assert_eq!(form.fields[0].value, "");
    assert_eq!(form.fields[1].label, "namespace");
    assert_eq!(form.fields[1].value, "default");
}

#[test]
fn filled_placeholders_produce_the_final_command() {
    let mut app = sample();
    typed(&mut app, "kubectl");
    app.on_key(key(KeyCode::Enter));
    typed(&mut app, "api-0");
    app.on_key(key(KeyCode::Enter));
    let outcome = app.on_key(key(KeyCode::Enter));

    assert_eq!(outcome, Some(insert("kubectl logs -f api-0 -n default")));
}

#[test]
fn a_second_use_remembers_the_last_values() {
    let mut app = sample();
    typed(&mut app, "kubectl");
    app.on_key(key(KeyCode::Enter));
    typed(&mut app, "api-0");
    app.on_key(key(KeyCode::Enter));
    app.on_key(key(KeyCode::Enter));

    // Reopening the same entry should not ask for the pod name again.
    app.app.mode = Mode::Browse;
    app.on_key(key(KeyCode::Enter));
    let Mode::Params { form, .. } = app.app.mode() else {
        panic!("expected the parameter form");
    };
    assert_eq!(form.fields[0].value, "api-0");
}

#[test]
fn escape_leaves_the_parameter_form_without_choosing() {
    let mut app = sample();
    typed(&mut app, "kubectl");
    app.on_key(key(KeyCode::Enter));
    assert_eq!(app.on_key(key(KeyCode::Esc)), None);
    assert!(matches!(app.app.mode(), Mode::Browse));
}

#[test]
fn parameter_descriptions_reach_the_form() {
    let mut with_desc = entry("two.params", "scan -p <path> --format <format>", "Scan a directory");
    with_desc
        .params
        .push(("path".to_string(), ParamSpec { desc: Some("Directory to scan".to_string()), from: None }));

    let mut app = app_with(vec![with_desc]);
    app.on_key(key(KeyCode::Enter));
    let Mode::Params { form, .. } = app.app.mode() else {
        panic!("expected the parameter form");
    };
    assert_eq!(form.fields[0].hint.as_deref(), Some("Directory to scan"));
}

/// A form is a poor place to type a path or a branch name: it knows nothing
/// the shell's own completion knows. One placeholder goes to the prompt
/// instead, with the cursor sitting in the gap it left.
#[test]
fn a_single_placeholder_lands_in_the_prompt_under_the_cursor() {
    let mut app = app_with(vec![entry("one.param", "scan -p <path>", "Scan a directory")]);
    let outcome = app.on_key(key(KeyCode::Enter));

    assert_eq!(outcome, Some(Outcome::Insert { command: "scan -p ".to_string(), cursor: Some(8) }));
}

/// The shortcut is about typing one value, not about skipping the form. A
/// placeholder used twice still has to be filled in one place.
#[test]
fn a_placeholder_used_twice_still_opens_the_form() {
    let mut app = app_with(vec![entry("twice", "mv <name> <name>.bak", "Back a file up in place")]);
    assert_eq!(app.on_key(key(KeyCode::Enter)), None);
    assert!(matches!(app.app.mode(), Mode::Params { .. }));
}

#[test]
fn a_command_with_no_placeholder_leaves_the_cursor_alone() {
    let mut app = sample();
    typed(&mut app, "docker");

    let Some(Outcome::Insert { cursor, .. }) = app.on_key(key(KeyCode::Enter)) else {
        panic!("expected a command");
    };
    assert_eq!(cursor, None);
}

#[test]
fn choosing_records_a_use() {
    let mut app = sample();
    typed(&mut app, "docker");
    app.on_key(key(KeyCode::Enter));
    assert!(app.has_score("docker.ps"));
    assert!(!app.has_score("git.log"));
}

// ---------------------------------------------------------------------------
// Saving
// ---------------------------------------------------------------------------

#[test]
fn saving_starts_on_the_newest_command_and_asks_what_it_is_for() {
    let mut app = sample();
    app.on_key(ctrl('s'));

    let save = save_mode(&app);
    assert_eq!(save.step, SaveStep::Command);
    assert_eq!(save.command, "kics scan -p .");

    app.on_key(key(KeyCode::Enter));
    assert_eq!(save_mode(&app).step, SaveStep::Purpose);

    typed(&mut app, "Scan this project");
    app.on_key(key(KeyCode::Enter));

    assert!(matches!(app.app.mode(), Mode::Browse));
    assert!(app.app.status().unwrap().contains("user.kics-scan"));
    assert!(app.app.changed());

    // Saving reloads the library, so the entry is now in the ranked list and
    // sitting under the cursor ready to be inserted.
    let saved = app.app.selected_row().unwrap();
    assert_eq!(saved.entry.id, "user.kics-scan");
    assert_eq!(saved.cmd, "kics scan -p .");
    assert_eq!(saved.entry.desc, "Scan this project");
    assert_eq!(saved.entry.tags, ["kics", "scan"]);
}

#[test]
fn hashtags_in_the_answer_become_tags() {
    let mut app = sample();
    app.on_key(ctrl('s'));
    app.on_key(key(KeyCode::Enter));
    typed(&mut app, "Scan this project #security");

    assert_eq!(app.app.save_tags(), ["security", "kics", "scan"]);
    app.on_key(key(KeyCode::Enter));

    let saved = app.app.selected_row().unwrap();
    assert_eq!(saved.entry.desc, "Scan this project");
    assert_eq!(saved.entry.tags, ["security", "kics", "scan"]);
}

#[test]
fn saving_refuses_an_entry_nobody_could_find_later() {
    let mut app = sample();
    app.on_key(ctrl('s'));
    app.on_key(key(KeyCode::Enter));
    typed(&mut app, "#only-tags");
    app.on_key(key(KeyCode::Enter));

    assert_eq!(save_mode(&app).step, SaveStep::Purpose);
    assert!(app.app.status().unwrap().contains("what it is for"));
    assert!(!app.written, "an unfindable entry was written");
}

#[test]
fn going_on_without_a_command_is_refused() {
    let mut app = app_with_history(Vec::new(), Vec::new());
    app.on_key(ctrl('s'));
    app.on_key(key(KeyCode::Enter));

    assert_eq!(save_mode(&app).step, SaveStep::Command);
    assert_eq!(app.app.status(), Some(NO_COMMAND));
}

/// The shell having nothing to offer is not an error. The line is still
/// there to be typed into.
#[test]
fn an_empty_history_still_opens_on_an_empty_line() {
    let mut app = app_with_history(vec![entry("git.log", "git log", "Show history")], Vec::new());
    app.on_key(ctrl('s'));

    let save = save_mode(&app);
    assert_eq!(save.command, "");
    assert_eq!(save.recalled, None);
    assert!(app.app.status().is_none());

    app.on_key(key(KeyCode::Up));
    assert_eq!(save_mode(&app).command, "", "up found history that is not there");
}

/// The way a shell's own prompt behaves: up walks back, down walks forward,
/// and down past the newest leaves an empty line.
#[test]
fn up_and_down_walk_the_history_like_a_shell() {
    let mut app = history_sample();
    app.on_key(ctrl('s'));
    assert_eq!(save_mode(&app).command, "kics scan -p .");

    app.on_key(key(KeyCode::Up));
    assert_eq!(save_mode(&app).command, "docker compose up -d");
    app.on_key(key(KeyCode::Up));
    assert_eq!(save_mode(&app).command, "git log --oneline");
    app.on_key(key(KeyCode::Up));
    assert_eq!(save_mode(&app).command, "git log --oneline", "ran off the end");

    app.on_key(key(KeyCode::Down));
    app.on_key(key(KeyCode::Down));
    assert_eq!(save_mode(&app).command, "kics scan -p .");

    app.on_key(key(KeyCode::Down));
    let save = save_mode(&app);
    assert_eq!(save.command, "");
    assert_eq!(save.recalled, None);

    app.on_key(key(KeyCode::Up));
    assert_eq!(save_mode(&app).command, "kics scan -p .");
}

#[test]
fn a_recalled_command_can_be_edited_before_it_is_saved() {
    let mut app = history_sample();
    app.on_key(ctrl('s'));
    app.on_key(key(KeyCode::Up));
    for _ in 0.."-d".len() {
        app.on_key(key(KeyCode::Backspace));
    }
    typed(&mut app, "--build");

    assert_eq!(save_mode(&app).command, "docker compose up --build");
}

#[test]
fn a_command_already_in_the_library_is_recognised() {
    let app = history_sample();
    assert!(app.app.is_saved("git log --oneline"));
    assert!(app.app.is_saved("  git log --oneline "));
    assert!(!app.app.is_saved("docker compose up -d"));
}

/// Up on the second line goes back to the first rather than into the
/// history, and whatever was typed as the answer is kept.
#[test]
fn up_from_the_question_returns_to_the_command() {
    let mut app = history_sample();
    app.on_key(ctrl('s'));
    app.on_key(key(KeyCode::Enter));
    typed(&mut app, "Scan");
    app.on_key(key(KeyCode::Up));

    let save = save_mode(&app);
    assert_eq!(save.step, SaveStep::Command);
    assert_eq!(save.command, "kics scan -p .");
    assert_eq!(save.purpose, "Scan");
}

#[test]
fn escape_leaves_without_saving() {
    let mut app = history_sample();
    app.on_key(ctrl('s'));
    app.on_key(key(KeyCode::Enter));
    typed(&mut app, "Scan this project");
    app.on_key(key(KeyCode::Esc));

    assert!(matches!(app.app.mode(), Mode::Browse));
    assert!(!app.written);
    assert!(!app.app.changed());
}

#[test]
fn ctrl_s_saves_from_the_answer_line() {
    let mut app = sample();

    app.on_key(ctrl('s'));
    app.on_key(key(KeyCode::Enter));
    typed(&mut app, "Scan this project");
    app.on_key(ctrl('s'));

    assert!(matches!(app.app.mode(), Mode::Browse));
    assert!(app.app.status().unwrap().contains("user.kics-scan"));
}

/// Submitting early must not skip the check that the entry is findable.
#[test]
fn the_chord_still_refuses_an_entry_with_no_description() {
    let mut app = sample();
    app.on_key(ctrl('s'));
    app.on_key(ctrl('s'));

    assert_eq!(save_mode(&app).step, SaveStep::Purpose);
    assert!(app.app.status().unwrap().contains("what it is for"));
}

#[test]
fn a_second_save_of_the_same_command_gets_the_next_free_id() {
    let mut app = sample();
    save_one(&mut app, "Scan this project");
    save_one(&mut app, "Scan it again");
    assert_eq!(app.app.selected_row().unwrap().entry.id, "user.kics-scan-2");
}

#[test]
fn a_repeated_or_blank_history_entry_is_dropped() {
    let prepared = prepare_history(vec![
        "  git status  ".to_string(),
        "   ".to_string(),
        "cd ..".to_string(),
        "git status".to_string(),
    ]);

    assert_eq!(prepared, vec!["git status".to_string(), "cd ..".to_string()]);
}

#[test]
fn the_history_is_capped() {
    let raw: Vec<String> = (0..HISTORY_LIMIT + 10).map(|n| format!("cmd {n}")).collect();
    assert_eq!(prepare_history(raw).len(), HISTORY_LIMIT);
}

#[test]
fn the_cap_keeps_the_newest() {
    let raw: Vec<String> = (0..HISTORY_LIMIT + 10).map(|n| format!("cmd {n}")).collect();
    let prepared = prepare_history(raw);
    assert_eq!(prepared[0], "cmd 0");
    assert_eq!(prepared[HISTORY_LIMIT - 1], format!("cmd {}", HISTORY_LIMIT - 1));
}

// ---------------------------------------------------------------------------
// Pinning
// ---------------------------------------------------------------------------

#[test]
fn pinning_floats_an_entry_to_the_top() {
    let mut app = sample();
    typed(&mut app, "docker");
    app.on_key(ctrl('p'));

    app.on_key(ctrl('u'));
    assert_eq!(app.app.selected_row().unwrap().entry.id, "docker.ps");
    assert!(app.app.selected_row().unwrap().pinned);
}

#[test]
fn pinning_twice_unpins() {
    let mut app = sample();
    app.on_key(ctrl('p'));
    assert!(app.app.selected_row().unwrap().pinned);
    app.on_key(ctrl('p'));
    assert!(!app.app.selected_row().unwrap().pinned);
}

#[test]
fn a_pinned_entry_outranks_one_used_more() {
    let mut app = sample();
    typed(&mut app, "git");
    app.on_key(key(KeyCode::Enter));
    app.app.mode = Mode::Browse;
    app.on_key(ctrl('u'));
    // Down to k8s.logs, which sorts last, and pin it.
    app.on_key(key(KeyCode::Down));
    app.on_key(key(KeyCode::Down));
    app.on_key(ctrl('p'));
    let ids: Vec<String> = app.app.rows().iter().map(|row| row.entry.id.clone()).collect();
    assert_eq!(ids, ["k8s.logs", "git.log", "docker.ps"]);
}

// ---------------------------------------------------------------------------
// Editing
// ---------------------------------------------------------------------------

#[test]
fn editing_opens_on_what_the_entry_already_says() {
    let mut app = sample();
    let selected = app.app.selected_row().unwrap();
    let id = selected.entry.id.clone();
    let cmd = selected.cmd.to_string();
    let desc = selected.entry.desc.clone();
    app.on_key(ctrl('e'));

    let Mode::Edit { form, .. } = app.app.mode() else {
        panic!("expected the edit form");
    };
    assert!(form.title.contains(&id), "the title never names the entry");
    assert_eq!(form.fields[0].value, cmd);
    assert_eq!(form.fields[1].value, desc);
}

#[test]
fn editing_rewrites_the_entry_and_leaves_it_selected() {
    let mut app = app_with(vec![Entry {
        layer: Layer::User,
        ..entry("user.kics", "kics scan -p .", "Scan this project")
    }]);
    app.append(&NewEntry {
        id: "user.kics".to_string(),
        cmd: CommandBody::Shared("kics scan -p .".to_string()),
        desc: "Scan this project".to_string(),
        tags: Vec::new(),
        params: Vec::new(),
        danger: false,
    });

    app.on_key(ctrl('e'));
    typed(&mut app, " --report-formats json");
    app.on_key(key(KeyCode::Enter));
    app.on_key(key(KeyCode::Enter));
    app.on_key(key(KeyCode::Enter));

    assert!(matches!(app.app.mode(), Mode::Browse));
    assert_eq!(app.app.status(), Some("Updated user.kics"));

    let edited = app.app.selected_row().unwrap();
    assert_eq!(edited.entry.id, "user.kics");
    assert_eq!(edited.cmd, "kics scan -p . --report-formats json");
}

/// A builtin cannot be rewritten inside the binary, so the edit lands in the
/// user's own library under the same id and shadows it from there.
#[test]
fn editing_a_builtin_writes_an_override_the_user_owns() {
    let mut app = app_with(vec![entry("git.log", "git log --oneline", "Show history")]);

    app.on_key(ctrl('e'));
    typed(&mut app, " --graph");
    app.on_key(key(KeyCode::Enter));
    app.on_key(key(KeyCode::Enter));
    app.on_key(key(KeyCode::Enter));

    assert!(app.app.status().unwrap().contains("overriding the builtin"));

    let text = &app.text;
    assert!(text.contains("id: git.log"), "wrote {text:?}");
    assert!(text.contains("--graph"), "wrote {text:?}");
}

/// Three fields is two keystrokes of nothing on the way to the one that
/// matters, so the chord submits from wherever the cursor happens to be.
#[test]
fn ctrl_s_submits_the_edit_form_from_any_field() {
    let mut app = app_with(vec![entry("git.log", "git log --oneline", "Show history")]);

    app.on_key(ctrl('e'));
    typed(&mut app, " --graph");
    app.on_key(ctrl('s'));

    assert!(matches!(app.app.mode(), Mode::Browse));
    assert_eq!(app.app.selected_row().unwrap().cmd, "git log --oneline --graph");
}

#[test]
fn editing_refuses_an_entry_nobody_could_find_later() {
    let mut app = sample();
    app.on_key(ctrl('e'));
    app.on_key(key(KeyCode::Enter));
    app.on_key(ctrl('u'));
    app.on_key(key(KeyCode::Enter));
    app.on_key(key(KeyCode::Enter));

    assert!(matches!(app.app.mode(), Mode::Edit { .. }));
    assert!(app.app.status().unwrap().contains("description"));
}

#[test]
fn leaving_the_edit_form_changes_nothing() {
    let mut app = sample();
    app.on_key(ctrl('e'));
    typed(&mut app, " --graph");
    app.on_key(key(KeyCode::Esc));

    assert!(matches!(app.app.mode(), Mode::Browse));
    assert!(!app.written, "an abandoned edit still wrote a file");
}

#[test]
fn editing_a_per_shell_command_keeps_the_other_shells_variant() {
    let both = Entry {
        cmd: CommandBody::PerShell(vec![
            (ShellFamily::Posix, "ls -la".to_string()),
            (ShellFamily::PowerShell, "Get-ChildItem -Force".to_string()),
        ]),
        ..entry("fs.list", "", "List files")
    };
    let mut app = app_with(vec![both]);
    app.on_key(ctrl('e'));
    typed(&mut app, "h");
    app.on_key(ctrl('s'));

    assert!(app.text.contains("posix: ls -lah"), "wrote {:?}", app.text);
    assert!(app.text.contains("powershell: Get-ChildItem -Force"), "wrote {:?}", app.text);
}

// ---------------------------------------------------------------------------
// Removing
// ---------------------------------------------------------------------------

#[test]
fn removing_asks_before_it_does_anything() {
    let mut app = sample();
    save_one(&mut app, "Scan this project");

    app.on_key(ctrl('x'));

    assert!(app.app.status().unwrap().contains("ctrl+x again"));
    assert!(has_row(&app, "user.kics-scan"));
}

#[test]
fn confirming_takes_the_entry_out_of_the_library() {
    let mut app = sample();
    save_one(&mut app, "Scan this project");

    app.on_key(ctrl('x'));
    app.on_key(ctrl('x'));

    assert!(!has_row(&app, "user.kics-scan"));
    assert!(!app.text.contains("user.kics-scan"), "left {:?}", app.text);
}

#[test]
fn any_other_key_stands_the_confirmation_down() {
    let mut app = sample();
    save_one(&mut app, "Scan this project");

    app.on_key(ctrl('x'));
    app.on_key(key(KeyCode::Down));
    app.on_key(key(KeyCode::Up));
    app.on_key(ctrl('x'));

    // Back to asking rather than removing.
    assert!(app.app.status().unwrap().contains("ctrl+x again"));
    assert!(has_row(&app, "user.kics-scan"));
}

/// A builtin lives inside the binary, so removing it means recording that
/// it should stop appearing.
#[test]
fn removing_a_builtin_disables_it_instead() {
    let mut app = sample();
    let id = app.app.selected_row().unwrap().entry.id.clone();

    app.on_key(ctrl('x'));
    app.on_key(ctrl('x'));

    assert!(app.app.status().unwrap().contains("disabled"));
    assert!(app.text.contains("disabled:"), "wrote {:?}", app.text);
    assert!(app.text.contains(&id), "wrote {:?}", app.text);
    assert!(!has_row(&app, &id));
}

#[test]
fn removing_forgets_what_was_remembered_about_the_entry() {
    let mut app = sample();
    save_one(&mut app, "Scan this project");
    let id = app.app.selected_row().unwrap().entry.id.clone();

    app.on_key(ctrl('x'));
    app.on_key(ctrl('x'));

    assert!(!app.has_score(&id));
}

#[test]
fn highlighting_follows_the_query() {
    let mut app = sample();
    assert!(app.app.highlight("docker ps").is_empty());
    typed(&mut app, "dps");
    assert_eq!(app.app.highlight("docker ps"), [0, 7, 8]);
}
