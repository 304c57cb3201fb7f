use lore::cli::{edit, found, found_lines, listing, more_line, new_entry, removal, shown_count, Refusal, FIND_PAGE};
use lore::search::{Ranker, Standing};
use lore::model::{CommandBody, Entry, Layer, ParamSpec, ShellFamily};

fn entry(id: &str, cmd: &str, desc: &str, layer: Layer) -> Entry {
    Entry {
        id: id.to_string(),
        cmd: CommandBody::Shared(cmd.to_string()),
        desc: desc.to_string(),
        tags: vec!["old".to_string()],
        params: Vec::new(),
        danger: false,
        layer,
    }
}

fn library() -> Vec<Entry> {
    vec![
        entry("git.log", "git log --oneline", "Show history", Layer::Builtin),
        entry("git.log.graph", "git log --graph --oneline", "Show history as a graph", Layer::Builtin),
        entry("user.kics", "kics scan -p .", "Scan this project", Layer::User),
        Entry {
            cmd: CommandBody::PerShell(vec![
                (ShellFamily::Posix, "ls -la".to_string()),
                (ShellFamily::PowerShell, "Get-ChildItem -Force".to_string()),
            ]),
            ..entry("fs.list", "", "List files", Layer::Builtin)
        },
    ]
}

#[test]
fn an_edit_that_changes_nothing_is_refused() {
    let refused = edit(&library(), "git.log.graph", ShellFamily::Posix, None, None, None).unwrap_err();
    assert_eq!(refused, Refusal::NothingToChange);
    assert_eq!(refused.message(), "nothing to change, pass at least one of --cmd, --desc or --tags");
}

#[test]
fn an_unknown_id_is_refused_rather_than_created() {
    let refused =
        edit(&library(), "nothing.here", ShellFamily::Posix, None, Some("x".to_string()), None).unwrap_err();
    assert_eq!(refused, Refusal::NoSuchId("nothing.here".to_string()));
    assert_eq!(refused.message(), "no command with the id nothing.here");
    assert_eq!(removal(&library(), "nothing.here"), Err(Refusal::NoSuchId("nothing.here".to_string())));
}

#[test]
fn an_edit_changes_only_what_it_names() {
    let edited =
        edit(&library(), "git.log", ShellFamily::Posix, None, Some("Show the log".to_string()), None).unwrap();
    assert_eq!(edited.id, "git.log");
    assert!(matches!(&edited.cmd, CommandBody::Shared(c) if c == "git log --oneline"));
    assert_eq!(edited.desc, "Show the log");
    assert_eq!(edited.tags, ["old"]);

    let retagged = edit(&library(), "git.log", ShellFamily::Posix, None, None, Some(" vcs, , history ".to_string()))
        .unwrap();
    assert_eq!(retagged.tags, ["vcs", "history"]);
    assert_eq!(retagged.desc, "Show history");
}

#[test]
fn an_edit_replaces_only_this_shells_variant() {
    let edited =
        edit(&library(), "fs.list", ShellFamily::PowerShell, Some("gci -Force".to_string()), None, None).unwrap();
    let CommandBody::PerShell(variants) = &edited.cmd else { panic!("still per shell") };
    assert_eq!(
        variants,
        &vec![(ShellFamily::Posix, "ls -la".to_string()), (ShellFamily::PowerShell, "gci -Force".to_string())]
    );
}

#[test]
fn removing_a_builtin_means_disabling_it() {
    assert_eq!(removal(&library(), "git.log"), Ok(false));
    assert_eq!(removal(&library(), "user.kics"), Ok(true));
}

#[test]
fn saving_takes_an_id_nobody_has() {
    let taken = vec!["user.kics-scan".to_string()];
    let saved = new_entry("kics scan -p .".to_string(), "Scan".to_string(), Some("sec, scan".to_string()), &taken);
    assert_eq!(saved.id, "user.kics-scan-2");
    assert_eq!(saved.tags, ["sec", "scan", "kics"]);
    assert_eq!(saved.desc, "Scan");
    let bare = new_entry("ls".to_string(), "List".to_string(), None, &Vec::new());
    assert_eq!(bare.id, "user.ls");
    assert_eq!(bare.tags, ["ls"]);
}

#[test]
fn saving_takes_tags_from_the_command_and_the_description() {
    let saved = new_entry(
        "kubectl logs -f api-0".to_string(),
        "Follow the api #k8s".to_string(),
        Some("prod".to_string()),
        &Vec::new(),
    );
    assert_eq!(saved.desc, "Follow the api");
    assert_eq!(saved.tags, ["k8s", "prod", "kubectl", "logs"]);
}

#[test]
fn a_listing_shows_everything_a_user_needs_to_run_it() {
    let mut logs = entry("k8s.logs", "kubectl logs <pod> -n <ns:default>", "Follow pod logs", Layer::Builtin);
    logs.danger = true;
    logs.params.push(("pod".to_string(), ParamSpec { desc: Some("Pod to follow".to_string()), from: None }));
    logs.tags = vec!["k8s".to_string(), "logs".to_string()];
    assert_eq!(
        listing(&logs, ShellFamily::Posix),
        "k8s.logs  [destructive]\n  Follow pod logs\n  kubectl logs <pod> -n <ns:default>\n    <pod>  Pod to follow\n    <ns>  no description\n  tags: k8s, logs\n\n"
    );
    let plain = Entry { tags: Vec::new(), ..entry("git.log", "git log", "Show history", Layer::User) };
    assert_eq!(listing(&plain, ShellFamily::Posix), "git.log\n  Show history\n  git log\n\n");
}

fn shelf() -> Vec<Entry> {
    vec![
        Entry {
            tags: vec!["docker".to_string(), "logs".to_string()],
            ..entry("docker.compose.logs", "docker compose logs -f --tail <lines:100> <service>", "Follow one service without the rest of the stack drowning it out", Layer::Builtin)
        },
        Entry {
            tags: vec!["docker".to_string(), "logs".to_string()],
            ..entry("docker.logs", "docker logs -f --tail <lines:100> <container>", "Watch what a container is printing right now", Layer::Builtin)
        },
        entry("git.log", "git log --oneline", "Show history", Layer::Builtin),
        Entry {
            tags: vec!["k8s".to_string()],
            ..entry("k8s.logs.follow", "kubectl logs -f <pod>", "Follow a pod's logs", Layer::User)
        },
        Entry {
            tags: Vec::new(),
            ..entry("spread", "docker ps", "Read the logs of nothing", Layer::User)
        },
    ]
}

fn ids(entries: &[Entry], at: &[usize]) -> Vec<String> {
    at.iter().map(|&i| entries[i].id.clone()).collect()
}

#[test]
fn finding_prints_the_matches_best_first() {
    let shelf = shelf();
    let at = found(&mut Ranker::new(), &shelf, ShellFamily::Posix, &[], "docker logs");
    assert_eq!(ids(&shelf, &at), ["docker.logs", "docker.compose.logs", "spread"]);

    let listed = found_lines(&shelf, ShellFamily::Posix, &at[..2].to_vec());
    assert_eq!(
        listed,
        "docker.logs          docker logs -f --tail <lines:100> <container>\n                     Watch what a container is printing right now\n\
         docker.compose.logs  docker compose logs -f --tail <lines:100> <service>\n                     Follow one service without the rest of the stack drowning it out\n"
    );
    assert!(!listed.contains("git."));
}

#[test]
fn finding_the_first_match_prints_the_command_alone() {
    let shelf = shelf();
    let at = found(&mut Ranker::new(), &shelf, ShellFamily::Posix, &[], "docker logs");
    assert_eq!(shelf[at[0]].cmd_for(ShellFamily::Posix), Some("docker logs -f --tail <lines:100> <container>"));
}

#[test]
fn a_search_needs_every_word_in_some_field() {
    let shelf = shelf();
    let at = found(&mut Ranker::new(), &shelf, ShellFamily::Posix, &[], "docker log");
    assert!(ids(&shelf, &at).contains(&"docker.logs".to_string()));

    let at = found(&mut Ranker::new(), &shelf, ShellFamily::Posix, &[], "DOCKER Watch");
    assert_eq!(ids(&shelf, &at), ["docker.logs"]);

    let at = found(&mut Ranker::new(), &shelf, ShellFamily::Posix, &[], "k8s");
    assert_eq!(ids(&shelf, &at), ["k8s.logs.follow"]);
}

#[test]
fn a_typo_finds_nothing() {
    let shelf = shelf();
    assert!(found(&mut Ranker::new(), &shelf, ShellFamily::Posix, &[], "dcoker").is_empty());
    assert!(found(&mut Ranker::new(), &shelf, ShellFamily::Posix, &[], "docker nothing-like-it").is_empty());
}

#[test]
fn a_search_only_lists_what_this_shell_can_run() {
    let lib = library();
    let at = found(&mut Ranker::new(), &lib, ShellFamily::PowerShell, &[], "list");
    assert_eq!(ids(&lib, &at), ["fs.list"]);
    let at = found(&mut Ranker::new(), &lib, ShellFamily::Posix, &[], "Get-ChildItem");
    assert!(at.is_empty());
}

#[test]
fn frequent_entries_rise_in_a_search() {
    let shelf = shelf();
    let scores = vec![("docker.compose.logs".to_string(), Standing { pinned: false, frecency: 40 })];
    let at = found(&mut Ranker::new(), &shelf, ShellFamily::Posix, &[], "logs");
    assert_eq!(at.len(), 4);
    let at = found(&mut Ranker::new(), &shelf, ShellFamily::Posix, &scores, "logs");
    assert_eq!(ids(&shelf, &at)[0], "docker.compose.logs");
    assert_eq!(ids(&shelf, &at)[3], "spread");
}

#[test]
fn a_broad_search_stops_after_a_page() {
    assert_eq!(FIND_PAGE, 10);
    assert_eq!(shown_count(4, false), 4);
    assert_eq!(shown_count(10, false), 10);
    assert_eq!(shown_count(23, false), 10);
    assert_eq!(shown_count(23, true), 23);
    assert_eq!(more_line(13), "... and 13 more, --all lists every one\n");
}
