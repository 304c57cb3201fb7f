use lore::model::{CommandBody, Entry, Layer};
use lore::search;
use lore::search::{quality_of, starts_with_ignore_case, Candidate, Quality, Ranker, Standing};

#[test]
fn every_word_has_to_appear_somewhere() {
    assert!(search::matches("docker logs -f api", "docker log"));
    assert!(search::matches("Docker Logs", "docker LOG"));
    assert!(!search::matches("docker logs", "docker lgo"));
    assert!(search::matches("anything", ""));
    assert!(search::matches("anything", "   "));
}

#[test]
fn match_quality_is_coarse() {
    assert_eq!(quality_of("git log --oneline", "git"), Quality::Prefix);
    assert_eq!(quality_of("GIT log", "git"), Quality::Prefix);
    assert_eq!(quality_of("docker compose logs", "comp"), Quality::WordStart);
    assert_eq!(quality_of("kubectl logs -f", "ub"), Quality::Fuzzy);
    assert!(Quality::Prefix > Quality::WordStart && Quality::WordStart > Quality::Fuzzy);
}

#[test]
fn starting_ignores_case() {
    assert!(starts_with_ignore_case("Ölçüm dosyası", "ölç"));
    assert!(!starts_with_ignore_case("ls", "lsof"));
    assert!(starts_with_ignore_case("ls", ""));
}

fn entry(id: &str, cmd: &str, desc: &str, tags: &[&str], layer: Layer) -> Entry {
    Entry {
        id: id.to_string(),
        cmd: CommandBody::Shared(cmd.to_string()),
        desc: desc.to_string(),
        tags: tags.iter().map(|t| t.to_string()).collect(),
        params: Vec::new(),
        danger: false,
        layer,
    }
}

fn candidates(entries: &[Entry]) -> Vec<Candidate<'_>> {
    entries
        .iter()
        .map(|entry| Candidate {
            entry,
            cmd: match &entry.cmd {
                CommandBody::Shared(cmd) => cmd.as_str(),
                CommandBody::PerShell(_) => unreachable!("test entries are shared"),
            },
        })
        .collect()
}

/// Usage scores as the ranking reads them: a decayed score is never
/// negative, so the order of its bits is the order of the scores.
fn scored(pairs: &[(&str, f64)]) -> Vec<(String, Standing)> {
    pairs
        .iter()
        .map(|(id, value)| (id.to_string(), Standing { pinned: false, frecency: value.to_bits() }))
        .collect()
}

fn pin(scores: &mut Vec<(String, Standing)>, id: &str) {
    scores.iter_mut().find(|(i, _)| i == id).unwrap().1.pinned = true;
}

fn order<'a>(entries: &'a [Entry], scores: &[(String, Standing)], query: &str) -> Vec<&'a str> {
    let candidates = candidates(entries);
    Ranker::new()
        .rank(&candidates, scores, query)
        .into_iter()
        .map(|index| candidates[index].entry.id.as_str())
        .collect()
}

fn sample() -> Vec<Entry> {
    vec![
        entry("docker.ps", "docker ps -a", "List containers", &["docker"], Layer::Builtin),
        entry("git.log", "git log --oneline", "Show history", &["git"], Layer::Builtin),
        entry("git.push", "git push --force-with-lease", "Publish the branch", &["git"], Layer::User),
    ]
}

#[test]
fn an_empty_query_keeps_everything() {
    let entries = sample();
    assert_eq!(order(&entries, &[], "").len(), 3);
}

#[test]
fn an_empty_query_puts_user_entries_before_builtins() {
    let entries = sample();
    let ranked = order(&entries, &[], "");
    assert_eq!(ranked[0], "git.push");
}

#[test]
fn an_empty_query_ranks_by_frecency_within_a_layer() {
    let entries = sample();
    let scores = scored(&[("git.log", 5.0), ("docker.ps", 1.0)]);
    assert_eq!(order(&entries, &scores, ""), ["git.push", "git.log", "docker.ps"]);
}

#[test]
fn a_query_filters_out_entries_that_do_not_match() {
    let entries = sample();
    assert_eq!(order(&entries, &[], "docker"), ["docker.ps"]);
}

#[test]
fn match_quality_outranks_frecency() {
    let entries = sample();
    // docker.ps is heavily used, but only git commands start with "git".
    let scores = scored(&[("docker.ps", 500.0)]);
    let ranked = order(&entries, &scores, "git");
    assert!(ranked.starts_with(&["git.log"]) || ranked.starts_with(&["git.push"]));
    assert!(!ranked.contains(&"docker.ps"));
}

#[test]
fn match_quality_outranks_the_user_layer() {
    let entries = vec![
        entry("user.thing", "kubectl describe thing", "Describe a thing", &[], Layer::User),
        entry("builtin.kubectl", "kubectl get pods", "List pods", &[], Layer::Builtin),
    ];
    // Both match, but only the builtin starts with the query.
    assert_eq!(order(&entries, &[], "kubectl get")[0], "builtin.kubectl");
}

#[test]
fn frecency_breaks_ties_inside_a_quality_bucket() {
    let entries = sample();
    let scores = scored(&[("git.push", 1.0), ("git.log", 9.0)]);
    assert_eq!(order(&entries, &scores, "git"), ["git.log", "git.push"]);
}

#[test]
fn a_command_match_outranks_a_description_match() {
    let entries = vec![
        entry("by.desc", "ls -la", "show docker containers", &[], Layer::Builtin),
        entry("by.cmd", "docker ps", "list running things", &[], Layer::Builtin),
    ];
    assert_eq!(order(&entries, &[], "docker")[0], "by.cmd");
}

#[test]
fn a_description_match_finds_a_command_by_intent() {
    let entries = sample();
    assert_eq!(order(&entries, &[], "history"), ["git.log"]);
}

#[test]
fn a_tag_match_still_finds_the_entry() {
    let entries = vec![entry(
        "sys.ports",
        "ss -tulpn",
        "Show listening sockets",
        &["network", "troubleshooting"],
        Layer::Builtin,
    )];
    assert_eq!(order(&entries, &[], "network"), ["sys.ports"]);
}

#[test]
fn pinning_wins_inside_the_empty_state() {
    let entries = sample();
    let mut scores = scored(&[("docker.ps", 0.1)]);
    pin(&mut scores, "docker.ps");
    assert_eq!(order(&entries, &scores, "")[0], "docker.ps");
}

#[test]
fn pinning_never_overrides_match_quality() {
    let entries = sample();
    let mut scores = scored(&[("docker.ps", 100.0)]);
    pin(&mut scores, "docker.ps");
    assert!(!order(&entries, &scores, "git").contains(&"docker.ps"));
}

#[test]
fn a_word_start_outranks_a_scattered_match() {
    let entries = vec![
        entry(
            "scattered",
            // "pod" appears only scattered across "port-forward doc".
            "kubectl port-forward doc",
            "",
            &[],
            Layer::Builtin,
        ),
        entry("word.start", "kubectl get pods", "", &[], Layer::Builtin),
    ];
    assert_eq!(order(&entries, &[], "pod"), ["word.start", "scattered"]);
}

#[test]
fn ordering_is_stable_when_nothing_distinguishes_entries() {
    let entries = sample();
    let first = order(&entries, &[], "");
    let second = order(&entries, &[], "");
    assert_eq!(first, second);
}

#[test]
fn equal_entries_keep_the_order_they_came_in() {
    let entries = vec![
        entry("same", "echo one", "Say it", &[], Layer::Builtin),
        entry("same", "echo two", "Say it", &[], Layer::Builtin),
    ];
    let candidates = candidates(&entries);
    assert_eq!(Ranker::new().rank(&candidates, &[], ""), [0, 1]);
}

#[test]
fn surrounding_spaces_do_not_change_the_query() {
    let entries = sample();
    assert_eq!(order(&entries, &[], "  docker  "), ["docker.ps"]);
}

#[test]
fn highlight_reports_matched_positions() {
    let mut ranker = Ranker::new();
    assert_eq!(ranker.highlight("docker ps", "dps"), [0, 7, 8]);
    assert!(ranker.highlight("docker ps", "").is_empty());
}
