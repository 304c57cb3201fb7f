use lore::model::{CommandBody, Entry, Layer, Library, ParamSpec, ShellFamily};
use lore::store::definitions::NewEntry;
use lore::sync::merge::{decide, merged, writes, Merged, Outcome, Side};
use serde_yaml_ng::{Mapping, Value};

const HEADER: &str = "version: 1\ncommands:\n";

fn string(v: &Value) -> String {
    v.as_str().expect("a string").to_string()
}

fn entry_of(item: &Value) -> Entry {
    let cmd = match &item["cmd"] {
        Value::String(s) => CommandBody::Shared(s.clone()),
        Value::Mapping(m) => CommandBody::PerShell(
            m.iter()
                .map(|(k, v)| {
                    let family = match k.as_str() {
                        Some("posix") => ShellFamily::Posix,
                        _ => ShellFamily::PowerShell,
                    };
                    (family, string(v))
                })
                .collect(),
        ),
        other => panic!("not a command: {other:?}"),
    };
    let tags = match &item["tags"] {
        Value::Sequence(s) => s.iter().map(string).collect(),
        _ => Vec::new(),
    };
    let params = match &item["params"] {
        Value::Mapping(m) => m
            .iter()
            .map(|(k, v)| {
                (
                    string(k),
                    ParamSpec { desc: v["desc"].as_str().map(String::from), from: v["from"].as_str().map(String::from) },
                )
            })
            .collect(),
        _ => Vec::new(),
    };
    Entry {
        id: string(&item["id"]),
        cmd,
        desc: string(&item["desc"]),
        tags,
        params,
        danger: item["danger"].as_bool().unwrap_or(false),
        layer: Layer::User,
    }
}

/// Reads a library the way the program does: an empty text is an empty
/// library, anything else has to be YAML with the library's shape.
fn library(text: &str, origin: &str) -> Result<Library, String> {
    if text.trim().is_empty() {
        return Ok(Library { version: 1, commands: Vec::new(), disabled: Vec::new() });
    }
    let doc: Value = serde_yaml_ng::from_str(text)
        .map_err(|_| format!("{origin} is not a valid command library"))?;
    let commands = match &doc["commands"] {
        Value::Sequence(items) => items.iter().map(entry_of).collect(),
        _ => Vec::new(),
    };
    let disabled = match &doc["disabled"] {
        Value::Sequence(items) => items.iter().map(string).collect(),
        _ => Vec::new(),
    };
    let version = doc["version"].as_u64().ok_or(format!("{origin} is not a valid command library"))? as u32;
    Ok(Library { version, commands, disabled })
}

fn side(text: &str, origin: &str) -> Result<Side, String> {
    Side::of(library(text, origin)?).map_err(|e| e.message(origin))
}

fn body(entry: &NewEntry) -> String {
    let mut m = Mapping::new();
    m.insert(Value::from("id"), Value::from(entry.id.clone()));
    let cmd = match &entry.cmd {
        CommandBody::Shared(s) => Value::from(s.clone()),
        CommandBody::PerShell(variants) => {
            let mut v = Mapping::new();
            for (family, text) in variants {
                let key = if *family == ShellFamily::Posix { "posix" } else { "powershell" };
                v.insert(Value::from(key), Value::from(text.clone()));
            }
            Value::Mapping(v)
        }
    };
    m.insert(Value::from("cmd"), cmd);
    m.insert(Value::from("desc"), Value::from(entry.desc.clone()));
    if !entry.tags.is_empty() {
        let tags: Vec<Value> = entry.tags.iter().map(|t| Value::from(t.clone())).collect();
        m.insert(Value::from("tags"), Value::Sequence(tags));
    }
    if entry.danger {
        m.insert(Value::from("danger"), Value::from(true));
    }
    serde_yaml_ng::to_string(&Value::Mapping(m)).unwrap()
}

/// Merges the way a sync does: decide, write what the other side changed into
/// this machine's text, and refuse anything that does not load.
fn merge(base: Option<&str>, ours: &str, theirs: Option<&str>) -> Result<Merged, String> {
    let base_side = side(base.unwrap_or_default(), "the library as last synced")?;
    let local = side(ours, "this machine's library")?;
    let remote = match theirs {
        Some(t) => Some(side(t, "the synced library")?),
        None => None,
    };
    let plan = decide(&base_side, &local, remote.as_ref());
    let bodies: Vec<String> = match &plan.outcome {
        Outcome::Spliced(steps) => writes(steps, &local, remote.as_ref().unwrap()).iter().map(body).collect(),
        _ => Vec::new(),
    };
    let result = merged(&plan, ours, theirs, &bodies).map_err(|e| e.message())?;
    side(&result.text, "the merged library")?;
    Ok(result)
}

fn item(id: &str, desc: &str) -> String {
    format!("  - id: {id}\n    cmd: echo {id}\n    desc: {desc}\n")
}

fn library_text(items: &[(&str, &str)]) -> String {
    let mut text = HEADER.to_string();
    for (id, desc) in items {
        text.push_str(&item(id, desc));
    }
    text
}

fn entries(text: &str) -> Vec<(String, String)> {
    library(text, "test").unwrap().commands.into_iter().map(|entry| (entry.id, entry.desc)).collect()
}

fn pairs(items: &[(&str, &str)]) -> Vec<(String, String)> {
    items.iter().map(|(id, desc)| (id.to_string(), desc.to_string())).collect()
}

#[test]
fn a_first_sync_to_an_empty_repository_sends_everything() {
    let ours = library_text(&[("a", "A")]);
    let merged = merge(None, &ours, None).unwrap();

    assert_eq!(merged.text, ours);
    assert_eq!((merged.received, merged.sent), (0, 1));
}

#[test]
fn a_new_machine_takes_the_library_as_it_is() {
    let theirs = format!("# my commands\n{}", library_text(&[("a", "A")]));
    let merged = merge(None, "", Some(&theirs)).unwrap();

    assert_eq!(merged.text, theirs, "the other machine's comments were lost");
    assert_eq!((merged.received, merged.sent), (1, 0));
}

#[test]
fn nothing_changed_anywhere_is_nothing_to_do() {
    let text = library_text(&[("a", "A")]);
    let merged = merge(Some(&text), &text, Some(&text)).unwrap();

    assert_eq!(merged.text, text);
    assert_eq!((merged.received, merged.sent), (0, 0));
}

#[test]
fn two_machines_adding_different_commands_keep_both() {
    let base = library_text(&[("a", "A")]);
    let ours = library_text(&[("a", "A"), ("mine", "Mine")]);
    let theirs = library_text(&[("a", "A"), ("theirs", "Theirs")]);

    let merged = merge(Some(&base), &ours, Some(&theirs)).unwrap();

    assert_eq!(entries(&merged.text), pairs(&[("a", "A"), ("mine", "Mine"), ("theirs", "Theirs")]));
    assert_eq!((merged.received, merged.sent), (1, 1));
    assert!(merged.kept_both.is_empty());
}

#[test]
fn this_machines_comments_survive_a_merge() {
    let base = library_text(&[("a", "A")]);
    let ours = format!("# kept by hand\n{}", library_text(&[("a", "A"), ("mine", "Mine")]));
    let theirs = library_text(&[("a", "A"), ("theirs", "Theirs")]);

    let merged = merge(Some(&base), &ours, Some(&theirs)).unwrap();
    assert!(merged.text.starts_with("# kept by hand\n"), "{}", merged.text);
}

#[test]
fn a_removal_elsewhere_reaches_this_machine() {
    let base = library_text(&[("a", "A"), ("b", "B")]);
    let ours = library_text(&[("a", "A"), ("b", "B"), ("mine", "Mine")]);
    let theirs = library_text(&[("a", "A")]);

    let merged = merge(Some(&base), &ours, Some(&theirs)).unwrap();
    assert_eq!(entries(&merged.text), pairs(&[("a", "A"), ("mine", "Mine")]));
}

#[test]
fn an_edit_elsewhere_reaches_this_machine() {
    let base = library_text(&[("a", "A"), ("b", "B")]);
    let ours = library_text(&[("a", "A"), ("b", "B"), ("mine", "Mine")]);
    let theirs = library_text(&[("a", "A changed"), ("b", "B")]);

    let merged = merge(Some(&base), &ours, Some(&theirs)).unwrap();
    assert_eq!(entries(&merged.text), pairs(&[("a", "A changed"), ("b", "B"), ("mine", "Mine")]));
}

#[test]
fn an_entry_edited_in_both_places_is_kept_twice() {
    let base = library_text(&[("a", "A")]);
    let ours = library_text(&[("a", "Mine")]);
    let theirs = library_text(&[("a", "Theirs")]);

    let merged = merge(Some(&base), &ours, Some(&theirs)).unwrap();

    assert_eq!(entries(&merged.text), pairs(&[("a", "Theirs"), ("a-2", "Mine")]));
    assert_eq!(merged.kept_both, [("a".to_string(), "a-2".to_string())]);
}

#[test]
fn a_conflict_settles_after_one_round() {
    let base = library_text(&[("a", "A")]);
    let pushed_first = library_text(&[("a", "Theirs")]);
    let merged = merge(Some(&base), &library_text(&[("a", "Mine")]), Some(&pushed_first)).unwrap();

    let settled = merge(Some(&pushed_first), &pushed_first, Some(&merged.text)).unwrap();

    assert_eq!(settled.text, merged.text);
    assert!(settled.kept_both.is_empty());
}

#[test]
fn an_edit_wins_over_a_removal_on_the_other_side() {
    let base = library_text(&[("a", "A"), ("b", "B")]);

    let edited_here = library_text(&[("a", "Edited"), ("b", "B")]);
    let removed_there = library_text(&[("b", "B")]);
    let merged = merge(Some(&base), &edited_here, Some(&removed_there)).unwrap();
    assert_eq!(entries(&merged.text), pairs(&[("a", "Edited"), ("b", "B")]));

    let removed_here = library_text(&[("b", "B"), ("c", "C")]);
    let edited_there = library_text(&[("a", "Edited"), ("b", "B")]);
    let merged = merge(Some(&base), &removed_here, Some(&edited_there)).unwrap();
    assert_eq!(entries(&merged.text), pairs(&[("b", "B"), ("c", "C"), ("a", "Edited")]));
}

#[test]
fn hidden_builtins_merge_like_entries() {
    let base = format!("{}disabled:\n  - old.*\n", library_text(&[("a", "A")]));
    let ours = format!("{}disabled:\n  - old.*\n", library_text(&[("a", "A"), ("m", "M")]));
    let theirs = format!("{}disabled:\n  - new.*\n", library_text(&[("a", "A")]));

    let merged = merge(Some(&base), &ours, Some(&theirs)).unwrap();
    let hidden = library(&merged.text, "test").unwrap().disabled;

    assert_eq!(hidden, ["new.*"]);
    assert_eq!(entries(&merged.text), pairs(&[("a", "A"), ("m", "M")]));
}

#[test]
fn a_broken_library_is_refused_rather_than_synced() {
    let error = merge(None, "version: 1\ncommands: [oops", None).err().unwrap();
    assert!(error.contains("this machine's library"));
}

#[test]
fn a_copy_never_takes_an_id_already_in_use() {
    let base = library_text(&[("a", "A")]);
    let ours = library_text(&[("a", "Mine"), ("a-2", "Other")]);
    let theirs = library_text(&[("a", "Theirs")]);

    let merged = merge(Some(&base), &ours, Some(&theirs)).unwrap();
    assert_eq!(merged.kept_both, [("a".to_string(), "a-3".to_string())]);
}

#[test]
fn a_plan_that_keeps_this_machines_text_leaves_it_byte_for_byte() {
    let ours = "version: 1\n# mine\ncommands:\n  - id: a\n    cmd: echo a\n    desc: a\n";
    let local = side(ours, "ours").unwrap();
    let base = side("", "base").unwrap();
    let plan = decide(&base, &local, None);
    assert!(matches!(plan.outcome, Outcome::Ours));
    let result = merged(&plan, ours, None, &Vec::new()).unwrap();
    assert_eq!(result.text, ours);
    assert_eq!(result.received, 0);
    assert_eq!(result.sent, 1);
    assert!(result.kept_both.is_empty());
}

#[test]
fn a_plan_that_takes_the_repository_leaves_its_text() {
    let theirs = library_text(&[("a", "from elsewhere")]);
    let base = side("", "base").unwrap();
    let local = side("", "ours").unwrap();
    let remote = side(&theirs, "theirs").unwrap();
    let plan = decide(&base, &local, Some(&remote));
    let result = merged(&plan, "", Some(&theirs), &Vec::new()).unwrap();
    assert_eq!(result.text, theirs);
    assert_eq!(result.received, 1);
    assert_eq!(result.sent, 0);
}
