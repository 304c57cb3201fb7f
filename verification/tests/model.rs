use lore::model::{CommandBody, Entry, Layer, ShellFamily};

fn entry(cmd: CommandBody) -> Entry {
    Entry {
        id: "test".into(),
        cmd,
        desc: "test".into(),
        tags: Vec::new(),
        params: Vec::new(),
        danger: false,
        layer: Layer::Builtin,
    }
}

#[test]
fn shared_command_serves_every_family() {
    let e = entry(CommandBody::Shared("git status".into()));
    assert_eq!(e.cmd_for(ShellFamily::Posix), Some("git status"));
    assert_eq!(e.cmd_for(ShellFamily::PowerShell), Some("git status"));
}

#[test]
fn missing_variant_hides_entry_from_that_shell() {
    let e = entry(CommandBody::PerShell(vec![(ShellFamily::Posix, "ss -tulpn".into())]));
    assert_eq!(e.cmd_for(ShellFamily::Posix), Some("ss -tulpn"));
    assert_eq!(e.cmd_for(ShellFamily::PowerShell), None);
}

#[test]
fn layers_order_from_weakest_to_strongest() {
    assert!(Layer::Builtin < Layer::Project);
    assert!(Layer::Project < Layer::User);
}

#[test]
fn the_first_variant_for_a_family_is_the_one_used() {
    let e = entry(CommandBody::PerShell(vec![
        (ShellFamily::PowerShell, "Get-Process".into()),
        (ShellFamily::Posix, "ps aux".into()),
        (ShellFamily::Posix, "ps -ef".into()),
    ]));
    assert_eq!(e.cmd_for(ShellFamily::Posix), Some("ps aux"));
    assert_eq!(e.cmd_for(ShellFamily::PowerShell), Some("Get-Process"));
}

#[test]
fn a_copy_says_the_same_as_the_entry() {
    let mut e = entry(CommandBody::PerShell(vec![(ShellFamily::Posix, "ls".into())]));
    e.tags = vec!["files".to_string()];
    let copy = e.copied();
    assert!(copy.same_as(&e));
    let mut changed = e.copied();
    changed.desc = "other".to_string();
    assert!(!changed.same_as(&e));
}
