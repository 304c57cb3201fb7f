use lore::model::ShellFamily;
use lore::shell::chord::Chord;
use lore::store::patterns::PathStyle;
use lore::shell::{
    block, fish_quoted, from_program, guard_line, init_line, is_installed, posix_quoted, snippet, strip, Shell,
    BEGIN, CHORD, END,
};

const ALL: [Shell; 4] = [Shell::Bash, Shell::Zsh, Shell::Fish, Shell::PowerShell];

const SYSTEM_BIN: [&str; 6] =
    ["/bin", "/sbin", "/usr/bin", "/usr/sbin", "/usr/local/bin", "/usr/local/sbin"];

#[test]
fn every_shell_knows_how_to_load_its_snippet() {
    for shell in ALL {
        let line = init_line(shell, Chord::default());
        assert!(line.contains("lore init"));
        assert!(line.contains(shell.label()));
    }
}

#[test]
fn only_a_changed_chord_reaches_the_init_line() {
    for shell in ALL {
        assert!(!init_line(shell, Chord::default()).contains("--key"));
        assert!(
            init_line(shell, Chord::parse("alt-r").expect("should parse")).contains("--key alt-r"),
            "{shell:?} loses the chord"
        );
    }
}

#[test]
fn a_binary_outside_the_system_directories_gets_a_path_guard() {
    for shell in [Shell::Bash, Shell::Zsh] {
        let guard = guard_line(shell, "/home/alp/.local/bin").expect("should guard");
        assert!(guard.contains("'/home/alp/.local/bin'"), "{guard}");
        assert!(guard.contains("PATH="), "{guard}");
    }

    let guard = guard_line(Shell::Fish, "/home/alp/.local/bin").expect("should guard");
    assert!(guard.contains("set -gx PATH"), "{guard}");
}

#[test]
fn nothing_is_guarded_that_is_already_reachable() {
    assert_eq!(guard_line(Shell::PowerShell, r"C:	ools\lore"), None);

    for directory in SYSTEM_BIN {
        assert_eq!(guard_line(Shell::Bash, directory), None, "{directory}");
    }
}

#[test]
fn the_guard_is_quoted_and_survives_being_run_twice() {
    let guard = guard_line(Shell::Bash, "/home/o'dd dir/bin").expect("should guard");

    let quoted = r"'/home/o'\''dd dir/bin'";
    assert!(guard.contains(quoted), "{guard}");
    assert_eq!(guard.matches(quoted).count(), 2, "the test and the assignment should both be quoted: {guard}");
}

#[test]
fn fish_escapes_what_the_other_shells_do_not() {
    assert_eq!(posix_quoted(r"/a\b"), r"'/a\b'");
    assert_eq!(fish_quoted(r"/a\b"), r"'/a\\b'");
    assert_eq!(posix_quoted("/a'b"), r"'/a'\''b'");
    assert_eq!(fish_quoted("/a'b"), r"'/a\'b'");
}

#[test]
fn uninstalling_takes_the_guard_with_it() {
    let original = "export EDITOR=vim
";
    let guard = guard_line(Shell::Bash, "/home/alp/.local/bin");
    let installed = format!("{original}{}", block(Shell::Bash, Chord::default(), guard.as_deref()));

    assert!(installed.contains("PATH="));
    assert_eq!(strip(&installed).trim_end(), original.trim_end());
}

#[test]
fn stripping_removes_only_the_marked_block() {
    let profile = format!(
        "export EDITOR=vim\n\n{BEGIN}\n{}\n{END}\nalias ll='ls -la'\n",
        init_line(Shell::Bash, Chord::default())
    );

    assert_eq!(strip(&profile), "export EDITOR=vim\n\nalias ll='ls -la'\n");
}

#[test]
fn installing_then_stripping_returns_the_original() {
    let original = "export EDITOR=vim\nalias ll='ls -la'\n";
    let installed = format!("{original}{}", block(Shell::Zsh, Chord::default(), None));

    assert!(installed.contains(BEGIN));
    assert_eq!(strip(&installed).trim_end(), original.trim_end());
}

#[test]
fn stripping_a_profile_without_the_block_changes_nothing() {
    let original = "export EDITOR=vim\n";
    assert_eq!(strip(original), original);
}

#[test]
fn shells_are_recognised_by_their_program_name() {
    assert_eq!(from_program("/bin/bash", &PathStyle::current()), Some(Shell::Bash));
    assert_eq!(from_program("/usr/bin/zsh", &PathStyle::current()), Some(Shell::Zsh));
    assert_eq!(from_program("/usr/local/bin/fish", &PathStyle::current()), Some(Shell::Fish));
    assert_eq!(from_program("pwsh.exe", &PathStyle::current()), Some(Shell::PowerShell));
    assert_eq!(from_program("/usr/bin/nu", &PathStyle::current()), None);
}

/// A backslash only separates directories on Windows, which is also the only
/// place a path shaped like this can reach SHELL.
#[test]
fn a_windows_path_is_split_the_windows_way() {
    let style = PathStyle::current();
    let found = from_program(r"C:\Program Files\PowerShell\7\pwsh.exe", &style);
    if style.escapes() {
        assert_eq!(found, None);
    } else {
        assert_eq!(found, Some(Shell::PowerShell));
    }
}

#[test]
fn a_profile_with_the_marker_is_already_set_up() {
    assert!(is_installed("export A=1\n# >>> lore >>>\neval x\n# <<< lore <<<\n"));
    assert!(!is_installed("export A=1\n"));
}

#[test]
fn posix_shells_share_a_dialect_and_powershell_does_not() {
    assert_eq!(ShellFamily::from(Shell::Bash), ShellFamily::Posix);
    assert_eq!(ShellFamily::from(Shell::Zsh), ShellFamily::Posix);
    assert_eq!(ShellFamily::from(Shell::Fish), ShellFamily::Posix);
    assert_eq!(ShellFamily::from(Shell::PowerShell), ShellFamily::PowerShell);
}

#[test]
fn installing_twice_over_is_stripped_in_one_go() {
    let original = "set -o vi\n";
    let block = block(Shell::Fish, Chord::parse("alt-r").unwrap(), Some("contains x $PATH"));
    let installed = format!("{original}{block}");
    assert_eq!(strip(&installed), "set -o vi\n\n");
}

#[test]
fn the_chord_replaces_every_placeholder_in_a_snippet() {
    let chord = Chord::parse("alt-r").unwrap();
    let template = format!("bind {CHORD} one\nbind -M insert {CHORD} two\n");
    let text = snippet(Shell::Fish, chord, &template);
    assert_eq!(text, "bind \\er one\nbind -M insert \\er two\n");
    assert!(!text.contains(CHORD));
}
