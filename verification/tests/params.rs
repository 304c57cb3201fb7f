use lore::params::{names, parse, render};

fn parsed(cmd: &str) -> Vec<(String, Option<String>)> {
    parse(cmd).into_iter().map(|p| (p.name, p.default)).collect()
}

fn none() -> Vec<(String, String)> {
    Vec::new()
}

#[test]
fn reads_a_bare_placeholder() {
    assert_eq!(parsed("docker logs <container>"), [("container".to_string(), None)]);
}

#[test]
fn reads_an_inline_default() {
    assert_eq!(
        parsed("kubectl get pods -n <namespace:default>"),
        [("namespace".to_string(), Some("default".to_string()))]
    );
}

#[test]
fn reads_hyphenated_names_in_order() {
    assert_eq!(
        parsed("kubectl port-forward svc/<service> <local-port>:<remote-port>"),
        [
            ("service".to_string(), None),
            ("local-port".to_string(), None),
            ("remote-port".to_string(), None),
        ]
    );
}

#[test]
fn ignores_go_template_syntax() {
    let cmd = r#"docker ps --format "table {{.Names}}\t{{.Status}}""#;
    assert!(parse(cmd).is_empty());
}

#[test]
fn ignores_shell_redirection() {
    assert!(parse("mysql -u root < dump.sql").is_empty());
    assert!(parse("make 2>&1 | tee log").is_empty());
    assert!(parse("cat <file.txt").is_empty());
}

#[test]
fn escaped_bracket_is_not_a_placeholder() {
    let cmd = r"echo \<literal>";
    assert!(parse(cmd).is_empty());
    assert_eq!(render(cmd, &none()), "echo <literal>");
}

#[test]
fn render_substitutes_values_over_defaults() {
    let values = vec![("namespace".to_string(), "prod".to_string())];
    assert_eq!(
        render("kubectl get pods -n <namespace:default>", &values),
        "kubectl get pods -n prod"
    );
}

#[test]
fn render_falls_back_to_the_default() {
    assert_eq!(
        render("kubectl get pods -n <namespace:default>", &none()),
        "kubectl get pods -n default"
    );
}

#[test]
fn render_leaves_go_templates_untouched() {
    let cmd = r"docker inspect -f '{{.Id}}' <container>";
    let values = vec![("container".to_string(), "web".to_string())];
    assert_eq!(render(cmd, &values), r"docker inspect -f '{{.Id}}' web");
}

#[test]
fn render_preserves_multibyte_text() {
    let values = vec![("dir".to_string(), "günlük".to_string())];
    assert_eq!(render("echo 'ölçüm →' && ls <dir>", &values), "echo 'ölçüm →' && ls günlük");
}

#[test]
fn parse_handles_multibyte_text_before_a_placeholder() {
    assert_eq!(parsed("echo 'ölçüm' <path>"), [("path".to_string(), None)]);
}

#[test]
fn lone_backslash_is_preserved() {
    assert_eq!(render(r"copy C:\src\file <dst>", &none()), r"copy C:\src\file ");
}

#[test]
fn names_are_deduplicated_in_first_appearance_order() {
    assert_eq!(
        names("cp <src> <dst> && diff <src> <dst>"),
        ["src".to_string(), "dst".to_string()]
    );
}

#[test]
fn a_span_counts_bytes_and_takes_in_both_brackets() {
    let cmd = "echo 'ölçüm' <path:x>";
    let found = parse(cmd);
    assert_eq!(found.len(), 1);
    assert_eq!(found[0].span, 16..24);
    assert_eq!(&cmd[found[0].span.clone()], "<path:x>");
    let plain = parse("cp <src> <dst:.>");
    assert_eq!(plain[0].span, 3..8);
    assert_eq!(plain[1].span, 9..16);
}

#[test]
fn the_last_value_given_for_a_name_wins() {
    let values = vec![
        ("env".to_string(), "dev".to_string()),
        ("env".to_string(), "prod".to_string()),
    ];
    assert_eq!(render("deploy <env>", &values), "deploy prod");
}
