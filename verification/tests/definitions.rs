use lore::model::{CommandBody, Entry, Layer, Library, ParamSpec, ShellFamily};
use lore::store::definitions::{
    appended, derive_tags, merge_tags, parse_tags, removed, split_purpose, suggest_id, upserted,
    with_disabled, with_enabled, EditError, NewEntry, Written,
};
use lore::store::layers::{merge, stamped, LoadError};
use lore::store::patterns::PathStyle;
use serde_yaml_ng::{Mapping, Value};

/// The entry as the YAML serialiser writes it, fields in declaration order and
/// empty ones left out.
fn body(entry: &NewEntry) -> String {
    let mut m = Mapping::new();
    m.insert(Value::from("id"), Value::from(entry.id.clone()));
    let cmd = match &entry.cmd {
        CommandBody::Shared(s) => Value::from(s.clone()),
        CommandBody::PerShell(variants) => {
            let mut v = Mapping::new();
            for (family, text) in variants {
                let key = match family {
                    ShellFamily::Posix => "posix",
                    ShellFamily::PowerShell => "powershell",
                };
                v.insert(Value::from(key), Value::from(text.clone()));
            }
            Value::Mapping(v)
        }
    };
    m.insert(Value::from("cmd"), cmd);
    m.insert(Value::from("desc"), Value::from(entry.desc.clone()));
    if !entry.tags.is_empty() {
        let tags: Vec<Value> = entry.tags.iter().map(|t| Value::from(t.clone())).collect();
        m.insert(Value::from("tags"), Value::Sequence(tags));
    }
    if !entry.params.is_empty() {
        let mut p = Mapping::new();
        for (name, spec) in &entry.params {
            let mut s = Mapping::new();
            if let Some(desc) = &spec.desc {
                s.insert(Value::from("desc"), Value::from(desc.clone()));
            }
            if let Some(from) = &spec.from {
                s.insert(Value::from("from"), Value::from(from.clone()));
            }
            p.insert(Value::from(name.clone()), Value::Mapping(s));
        }
        m.insert(Value::from("params"), Value::Mapping(p));
    }
    if entry.danger {
        m.insert(Value::from("danger"), Value::from(true));
    }
    serde_yaml_ng::to_string(&Value::Mapping(m)).unwrap()
}

fn new_entry(id: &str, cmd: &str) -> NewEntry {
    NewEntry {
        id: id.to_string(),
        cmd: CommandBody::Shared(cmd.to_string()),
        desc: "saved from the shell".to_string(),
        tags: vec!["saved".to_string()],
        params: Vec::new(),
        danger: false,
    }
}

fn echo_entry(id: &str) -> NewEntry {
    new_entry(id, &format!("echo {id}"))
}

/// The ids a library text declares, in order, after checking it still reads as
/// a library.
fn ids_in(text: &str) -> Vec<String> {
    let doc: Value = serde_yaml_ng::from_str(text).expect("the text should still be YAML");
    assert_eq!(doc["version"], Value::from(1));
    match &doc["commands"] {
        Value::Sequence(items) => items
            .iter()
            .map(|item| item["id"].as_str().expect("every entry has an id").to_string())
            .collect(),
        Value::Null => Vec::new(),
        other => panic!("commands is not a list: {other:?}"),
    }
}

fn entry(id: &str, cmd: &str, desc: &str) -> Entry {
    Entry {
        id: id.to_string(),
        cmd: CommandBody::Shared(cmd.to_string()),
        desc: desc.to_string(),
        tags: Vec::new(),
        params: Vec::new(),
        danger: false,
        layer: Layer::Builtin,
    }
}

fn library(entries: Vec<Entry>, disabled: &[&str]) -> Library {
    Library {
        version: 1,
        commands: entries,
        disabled: disabled.iter().map(|p| p.to_string()).collect(),
    }
}

fn ids(entries: &[Entry]) -> Vec<&str> {
    entries.iter().map(|e| e.id.as_str()).collect()
}

#[test]
fn a_new_entry_goes_into_the_commands_list_even_when_it_is_not_last() {
    let text = "version: 1\ncommands:\n  - id: one\n    cmd: echo one\n    desc: One\ndisabled:\n  - git.status\n";
    let text = appended(text, &body(&echo_entry("two"))).unwrap();

    assert_eq!(ids_in(&text), ["one", "two"]);
    assert!(text.ends_with("disabled:\n  - git.status\n"), "wrote {text}");
}

#[test]
fn a_comment_introducing_the_next_section_stays_with_it() {
    let text = "version: 1\ncommands:\n  - id: one\n    cmd: echo one\n    desc: One\n\n# builtins I never use\ndisabled:\n  - docker.*\n";
    let text = appended(text, &body(&echo_entry("two"))).unwrap();

    assert_eq!(ids_in(&text), ["one", "two"]);
    assert!(text.contains("- saved\n\n# builtins I never use\ndisabled:"), "wrote {text}");
}

#[test]
fn a_list_written_flush_with_the_margin_stays_that_way() {
    let text = "version: 1\ncommands:\n- id: one\n  cmd: echo one\n  desc: One\n";
    let text = appended(text, &body(&echo_entry("two"))).unwrap();

    assert_eq!(ids_in(&text), ["one", "two"]);
    assert!(text.contains("\n- id: two\n"), "wrote {text}");
}

#[test]
fn an_empty_inline_list_is_opened_up() {
    let text = appended("version: 1\ncommands: []\n", &body(&echo_entry("one"))).unwrap();
    assert_eq!(ids_in(&text), ["one"]);
}

#[test]
fn a_file_with_no_commands_key_gains_one() {
    let text = appended("version: 1\ndisabled:\n  - x\n", &body(&echo_entry("one"))).unwrap();
    assert_eq!(ids_in(&text), ["one"]);
}

#[test]
fn an_empty_file_becomes_a_whole_document() {
    let text = appended("", &body(&echo_entry("one"))).unwrap();
    assert!(text.starts_with("version: 1\ncommands:\n  - id: one\n"), "wrote {text}");
    assert_eq!(ids_in(&text), ["one"]);
}

#[test]
fn a_list_written_on_one_line_is_left_for_the_user() {
    let error = appended("version: 1\ncommands: [a, b]\n", &body(&echo_entry("one"))).unwrap_err();
    assert_eq!(error, EditError::OneLine("commands: [a, b]".to_string()));
    assert!(error.message().contains("add to it by hand"));
    assert!(with_disabled("disabled: [x]\n", "y").is_err());
}

#[test]
fn replacing_keeps_the_indentation_the_file_uses() {
    let text = "version: 1\ncommands:\n- id: one\n  cmd: echo one\n  desc: One\n";
    let mut entry = echo_entry("one");
    entry.desc = "Changed".to_string();

    let (text, written) = upserted(text, &entry.id, &body(&entry)).unwrap();
    assert_eq!(written, Written::Replaced);
    assert!(text.contains("\n- id: one\n"), "wrote {text}");
    assert!(text.contains("desc: Changed"), "wrote {text}");
}

#[test]
fn rewriting_an_entry_leaves_the_rest_of_the_file_alone() {
    let text = "version: 1\n# my own commands\ncommands:\n\n  # the one I always forget\n  - id: user.kics\n    cmd: kics scan -p .\n    desc: old\n\n  - id: user.trivy\n    cmd: trivy image alpine\n    desc: keep me\n";

    let mut entry = new_entry("user.kics", "kics scan -p . --report-formats json");
    entry.desc = "new".to_string();
    let (text, written) = upserted(text, &entry.id, &body(&entry)).unwrap();
    assert_eq!(written, Written::Replaced);

    assert!(text.contains("# my own commands"), "wrote {text:?}");
    assert!(text.contains("# the one I always forget"), "wrote {text:?}");
    assert!(text.contains("desc: keep me"), "wrote {text:?}");
    assert!(text.contains("--report-formats json"), "wrote {text:?}");
    assert!(!text.contains("desc: old"), "wrote {text:?}");
    assert_eq!(text.matches("id: user.kics").count(), 1, "wrote {text:?}");
}

#[test]
fn upserting_an_id_the_file_does_not_hold_appends_it() {
    let text = "version: 1\ncommands:\n  - id: user.trivy\n    cmd: trivy image alpine\n    desc: keep me\n";
    let entry = new_entry("git.log.graph", "git log --graph");
    let (text, written) = upserted(text, &entry.id, &body(&entry)).unwrap();
    assert_eq!(written, Written::Appended);
    assert!(text.contains("desc: keep me"), "wrote {text:?}");
    assert!(text.contains("id: git.log.graph"), "wrote {text:?}");
}

#[test]
fn a_rewritten_entry_keeps_every_field() {
    let entry = NewEntry {
        id: "sys.ports".to_string(),
        cmd: CommandBody::PerShell(vec![
            (ShellFamily::Posix, "ss -tulpn".to_string()),
            (ShellFamily::PowerShell, "Get-NetTCPConnection".to_string()),
        ]),
        desc: "List listening ports".to_string(),
        tags: vec!["net".to_string()],
        params: vec![(
            "port".to_string(),
            ParamSpec { desc: Some("Port to look for".to_string()), from: None },
        )],
        danger: true,
    };
    let (text, written) = upserted("", &entry.id, &body(&entry)).unwrap();
    assert_eq!(written, Written::Appended);
    let doc: Value = serde_yaml_ng::from_str(&text).unwrap();
    let saved = &doc["commands"][0];
    assert_eq!(saved["cmd"]["posix"], Value::from("ss -tulpn"));
    assert_eq!(saved["cmd"]["powershell"], Value::from("Get-NetTCPConnection"));
    assert_eq!(saved["danger"], Value::from(true));
    assert_eq!(saved["params"]["port"]["desc"], Value::from("Port to look for"));
}

#[test]
fn removing_an_entry_leaves_the_rest_of_the_file_alone() {
    let text = "# notes I wrote myself\nversion: 1\ncommands:\n  - id: keep.me\n    cmd: ls\n    desc: list\n\n  - id: drop.me\n    cmd: rm -rf /\n    desc: do not\n  - id: keep.me.too\n    cmd: pwd\n    desc: where\n";
    let text = removed(text, "drop.me").expect("the entry is there");

    assert!(text.contains("# notes I wrote myself"));
    assert!(!text.contains("drop.me"));
    assert!(!text.contains("rm -rf"));
    assert_eq!(ids_in(&text), ["keep.me", "keep.me.too"]);
}

#[test]
fn removing_the_last_entry_does_not_swallow_what_follows() {
    let text = "version: 1\ncommands:\n  - id: drop.me\n    cmd: ls\n    desc: list\ndisabled:\n  - docker.*\n";
    let text = removed(text, "drop.me").expect("the entry is there");
    assert!(text.contains("disabled:"), "lost the disabled list: {text:?}");
    assert!(text.contains("docker.*"));
}

#[test]
fn removing_something_that_is_not_there_reports_it() {
    assert_eq!(removed("version: 1\ncommands: []\n", "nope"), None);
}

#[test]
fn a_quoted_id_is_found_too() {
    let text = "version: 1\ncommands:\n  - id: \"odd.one\"\n    cmd: ls\n    desc: list\n";
    assert_eq!(removed(text, "odd.one"), Some("version: 1\ncommands:\n".to_string()));
}

#[test]
fn hiding_then_unhiding_leaves_the_file_as_it_was() {
    let original = "version: 1\ncommands:\n  - id: one\n    cmd: echo one\n    desc: One\ndisabled:\n  - docker.*\n";
    let hidden = with_disabled(original, "git.status").unwrap();
    assert!(hidden.contains("  - git.status\n"), "wrote {hidden}");

    assert_eq!(with_enabled(&hidden, "git.status"), original);
}

#[test]
fn unhiding_something_never_hidden_changes_nothing() {
    let original = "version: 1\ncommands:\n  - id: git.status\n    cmd: git status\n    desc: S\n";
    assert_eq!(with_enabled(original, "git.status"), original);
}

#[test]
fn disabling_twice_extends_the_existing_list() {
    let text = with_disabled("", "docker.prune.everything").unwrap();
    assert_eq!(text, "version: 1\ndisabled:\n  - docker.prune.everything\n");
    let text = with_disabled(&text, "git.log.graph").unwrap();
    assert_eq!(text.matches("disabled:").count(), 1, "wrote {text:?}");
    assert!(text.contains("  - git.log.graph\n  - docker.prune.everything\n"), "wrote {text:?}");
}

#[test]
fn disabling_leaves_saved_commands_in_place() {
    let text = appended("", &body(&new_entry("user.mine", "docker ps"))).unwrap();
    let text = with_disabled(&text, "docker.prune.everything").unwrap();
    assert_eq!(ids_in(&text), ["user.mine"]);
    assert!(text.ends_with("disabled:\n  - docker.prune.everything\n"), "wrote {text:?}");
}

#[test]
fn hashtags_in_the_purpose_become_tags() {
    assert_eq!(
        split_purpose("Follow the api logs #k8s #Debug"),
        ("Follow the api logs".to_string(), vec!["k8s".to_string(), "debug".to_string()])
    );
    assert_eq!(
        split_purpose("  Tail   the #logs log  "),
        ("Tail the log".to_string(), vec!["logs".to_string()])
    );
}

#[test]
fn a_bare_hash_stays_in_the_description() {
    assert_eq!(split_purpose("Issue # 42 fix"), ("Issue # 42 fix".to_string(), Vec::new()));
}

#[test]
fn tags_come_from_the_program_and_its_subcommands() {
    assert_eq!(derive_tags("kubectl logs -f <pod>"), ["kubectl", "logs"]);
    assert_eq!(derive_tags("docker compose logs -f api"), ["docker", "compose", "logs"]);
    assert_eq!(derive_tags("git log -S\"<text>\" --oneline"), ["git", "log"]);
    assert_eq!(derive_tags("ls -lah"), ["ls"]);
}

#[test]
fn tags_skip_what_is_not_the_program() {
    assert_eq!(derive_tags("sudo systemctl restart nginx"), ["systemctl", "restart", "nginx"]);
    assert_eq!(derive_tags("RUST_LOG=debug cargo run"), ["cargo", "run"]);
    assert_eq!(derive_tags("/usr/local/bin/terraform plan"), ["terraform", "plan"]);
    assert!(derive_tags("./deploy.sh prod").is_empty());
    assert!(derive_tags("").is_empty());
}

#[test]
fn given_tags_come_first_and_are_not_repeated() {
    assert_eq!(
        merge_tags(vec!["k8s".to_string(), "logs".to_string()], "kubectl logs -f x"),
        ["k8s", "logs", "kubectl"]
    );
}

#[test]
fn typed_tags_are_trimmed_and_blanks_dropped() {
    assert_eq!(parse_tags(" k8s, ,logs ,"), ["k8s", "logs"]);
    assert!(parse_tags("").is_empty());
}

#[test]
fn suggested_ids_read_like_the_command_and_avoid_collisions() {
    let mut taken: Vec<String> = Vec::new();
    assert_eq!(suggest_id("docker ps -a", &taken), "user.docker-ps");

    taken.push("user.docker-ps".to_string());
    assert_eq!(suggest_id("docker ps -a", &taken), "user.docker-ps-2");

    taken.push("user.docker-ps-2".to_string());
    assert_eq!(suggest_id("docker ps -a", &taken), "user.docker-ps-3");
}

#[test]
fn a_suggested_id_ignores_leading_flags_and_odd_input() {
    let taken: Vec<String> = Vec::new();
    assert_eq!(suggest_id("kubectl -n prod get", &taken), "user.kubectl-prod");
    assert_eq!(suggest_id("--- ???", &taken), "user.command");
    assert_eq!(suggest_id("", &taken), "user.command");
}

#[test]
fn a_later_layer_shadows_an_earlier_one() {
    let builtin = stamped(library(vec![entry("git.log", "git log", "builtin version")], &[]), Layer::Builtin)
        .unwrap();
    let user = stamped(
        library(vec![entry("git.log", "git log --oneline", "user version")], &[]),
        Layer::User,
    )
    .unwrap();

    let merged = merge(vec![builtin, user], &PathStyle::current()).unwrap();
    assert_eq!(merged.len(), 1);
    assert_eq!(merged[0].desc, "user version");
    assert_eq!(merged[0].layer, Layer::User);
}

#[test]
fn disable_patterns_hide_entries_from_earlier_layers() {
    let builtin = stamped(
        library(
            vec![
                entry("docker.ps", "docker ps", "list containers"),
                entry("docker.logs", "docker logs", "read logs"),
                entry("git.log", "git log", "read history"),
            ],
            &[],
        ),
        Layer::Builtin,
    )
    .unwrap();
    let user = stamped(library(Vec::new(), &["docker.*"]), Layer::User).unwrap();

    let merged = merge(vec![builtin, user], &PathStyle::current()).unwrap();
    assert_eq!(ids(&merged), ["git.log"]);
}

#[test]
fn the_merged_library_is_ordered_by_id() {
    let first = stamped(
        library(vec![entry("zz.last", "z", "z"), entry("aa.first", "a", "a")], &[]),
        Layer::Builtin,
    )
    .unwrap();
    let second = stamped(library(vec![entry("mm.middle", "m", "m")], &[]), Layer::User).unwrap();
    let merged = merge(vec![first, second], &PathStyle::current()).unwrap();
    assert_eq!(ids(&merged), ["aa.first", "mm.middle", "zz.last"]);
}

#[test]
fn a_pattern_that_is_not_a_glob_is_refused() {
    let user = stamped(library(Vec::new(), &["docker.{ps"]), Layer::User).unwrap();
    let error = merge(vec![user], &PathStyle::current()).unwrap_err();
    assert!(matches!(&error, LoadError::BadPattern(p, cause) if p == "docker.{ps" && !cause.is_empty()));
    let message = error.message("x");
    assert!(message.starts_with("`docker.{ps` is not a valid disable pattern: "), "said {message}");
}

#[test]
fn an_unsupported_schema_version_is_rejected() {
    let mut lib = library(Vec::new(), &[]);
    lib.version = 99;
    let error = stamped(lib, Layer::User).unwrap_err();
    assert!(error.message("test.yaml").contains("schema version 99"));
}

#[test]
fn a_duplicate_id_within_one_file_is_rejected() {
    let lib = library(vec![entry("dup", "a", "first"), entry("dup", "b", "second")], &[]);
    let error = stamped(lib, Layer::User).unwrap_err();
    assert!(error.message("test.yaml").contains("more than once"));
}

#[test]
fn an_empty_description_is_rejected() {
    let lib = library(vec![entry("bare", "ls", "  ")], &[]);
    let error = stamped(lib, Layer::User).unwrap_err();
    assert!(error.message("test.yaml").contains("empty description"));
}

#[test]
fn an_empty_id_is_rejected() {
    let lib = library(vec![entry(" ", "ls", "list")], &[]);
    assert_eq!(stamped(lib, Layer::User).unwrap_err(), LoadError::EmptyId);
}

#[test]
fn every_entry_is_stamped_with_its_layer() {
    let lib = library(vec![entry("a.one", "ls", "list"), entry("a.two", "pwd", "where")], &["x.*"]);
    let lib = stamped(lib, Layer::Project).unwrap();
    assert!(lib.commands.iter().all(|e| e.layer == Layer::Project));
    assert_eq!(lib.disabled, ["x.*"]);
}

#[test]
fn a_trailing_backslash_is_read_the_way_the_platform_reads_paths() {
    let style = PathStyle::current();
    let user = stamped(library(vec![entry("a.b", "x", "x")], &["a\\"]), Layer::User).unwrap();
    let loaded = merge(vec![user], &style);
    if style.escapes() {
        assert!(matches!(loaded.unwrap_err(), LoadError::BadPattern(p, _) if p == "a\\"));
    } else {
        assert_eq!(ids(&loaded.unwrap()), ["a.b"]);
    }
}

#[test]
fn a_library_without_disable_patterns_always_loads() {
    let user = stamped(library(vec![entry("b.two", "b", "b"), entry("a.one", "a", "a")], &[]), Layer::User).unwrap();
    let merged = merge(vec![user], &PathStyle::current()).unwrap();
    assert_eq!(ids(&merged), ["a.one", "b.two"]);
}
