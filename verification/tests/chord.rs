use lore::shell::chord::{Chord, ChordError};
use lore::shell::Shell;

fn chord(text: &str) -> Chord {
    Chord::parse(text).expect("should parse")
}

#[test]
fn the_default_is_the_chord_the_documentation_promises() {
    assert_eq!(Chord::default().canonical(), "ctrl-g");
    assert!(chord("ctrl-g").is_default());
    assert!(!chord("alt-r").is_default());
}

#[test]
fn parsing_is_case_insensitive_and_round_trips() {
    for text in ["ctrl-g", "CTRL-G", " Ctrl-g "] {
        assert_eq!(chord(text).canonical(), "ctrl-g");
    }
    assert_eq!(chord("Alt-R").canonical(), "alt-r");
    assert_eq!(chord("control-p").canonical(), "ctrl-p");
    assert_eq!(chord("meta-p").canonical(), "alt-p");
}

#[test]
fn every_shell_gets_its_own_spelling() {
    let ctrl = chord("ctrl-g");
    assert_eq!(ctrl.render(Shell::Bash), r"\C-g");
    assert_eq!(ctrl.render(Shell::Zsh), "^G");
    assert_eq!(ctrl.render(Shell::Fish), r"\cg");
    assert_eq!(ctrl.render(Shell::PowerShell), "Ctrl+g");

    let alt = chord("alt-r");
    assert_eq!(alt.render(Shell::Bash), r"\M-r");
    assert_eq!(alt.render(Shell::Zsh), "^[r");
    assert_eq!(alt.render(Shell::Fish), r"\er");
    assert_eq!(alt.render(Shell::PowerShell), "Alt+r");
}

#[test]
fn a_chord_without_a_modifier_is_refused() {
    assert_eq!(Chord::parse("g"), Err(ChordError::Shape));
    assert_eq!(Chord::parse(""), Err(ChordError::Shape));
}

#[test]
fn an_unbindable_modifier_is_refused() {
    assert!(matches!(Chord::parse("shift-g"), Err(ChordError::Modifier(_))));
    assert!(matches!(Chord::parse("ctrl-shift-g"), Err(ChordError::Key(_))));
}

#[test]
fn a_key_that_is_not_one_letter_is_refused() {
    for text in ["ctrl-", "ctrl-space", "ctrl-1", "alt-f4"] {
        assert!(matches!(Chord::parse(text), Err(ChordError::Key(_))), "{text}");
    }
}

#[test]
fn control_keys_the_terminal_owns_are_refused() {
    for letter in ['c', 'd', 'i', 'j', 'm', 'q', 's', 'z'] {
        let text = format!("ctrl-{letter}");
        assert!(matches!(Chord::parse(&text), Err(ChordError::Reserved(..))), "{text}");
    }
    assert!(Chord::parse("alt-c").is_ok());
}

#[test]
fn the_spoken_form_reads_like_a_key_to_press() {
    assert_eq!(chord("ctrl-g").spoken(), "ctrl+g");
    assert_eq!(chord("alt-r").spoken(), "alt+r");
}

#[test]
fn every_refusal_says_why() {
    assert_eq!(
        Chord::parse("g").unwrap_err().message(),
        "write the key as ctrl-<letter> or alt-<letter>, such as ctrl-g"
    );
    assert_eq!(
        Chord::parse("shift-g").unwrap_err().message(),
        "shift is not a modifier lore can bind, use ctrl or alt"
    );
    assert_eq!(Chord::parse("alt-f4").unwrap_err().message(), "f4 is not a single letter");
    assert!(Chord::parse("ctrl-c").unwrap_err().message().starts_with("ctrl-c cannot be bound"));
}

#[test]
fn a_canonical_chord_reads_back_as_itself() {
    for text in ["ctrl-a", "alt-z", "ctrl-g", "alt-c"] {
        let c = chord(text);
        assert_eq!(chord(&c.canonical()), c);
    }
}
