use lore::update::{advice, newest, report, Version};

fn version(text: &str) -> Version {
    Version::parse(text).expect("should parse")
}

#[test]
fn versions_are_read_and_ordered_by_what_they_mean() {
    assert_eq!(version("v0.2.2"), version("0.2.2"));
    assert!(version("0.10.0") > version("0.9.9"));
    assert!(version("1.0.0") > version("0.99.99"));
    assert!(Version::parse("0.2").is_none());
    assert!(Version::parse("0.3.0-rc1").is_none());
    assert!(Version::parse("nightly").is_none());
}

#[test]
fn only_a_new_first_or_second_number_is_worth_saying() {
    let current = version("0.2.2");
    let exe = "/opt/homebrew/Cellar/lore/0.2.2/bin/lore";

    assert!(advice(&current, &version("0.2.3"), exe).is_none());
    assert!(advice(&current, &version("0.2.99"), exe).is_none());
    assert!(advice(&current, &version("0.2.2"), exe).is_none());
    assert!(advice(&current, &version("0.1.9"), exe).is_none());

    assert!(advice(&current, &version("0.3.0"), exe).is_some());
    assert!(advice(&current, &version("1.0.0"), exe).is_some());
}

#[test]
fn the_advice_names_the_version_and_the_right_command() {
    let current = version("0.2.2");
    let said = |exe: &str| advice(&current, &version("0.3.0"), exe).unwrap();

    assert!(said("/opt/homebrew/Cellar/lore/0.2.2/bin/lore").contains("lore 0.3.0 is out"));
    assert!(said("/opt/homebrew/Cellar/lore/0.2.2/bin/lore").contains("brew upgrade lore"));
    assert!(said("/home/alp/.cargo/bin/lore").contains("cargo install cmdlore --force"));
    assert!(said(r"C:\Users\alp\scoop\apps\lore\current\lore.exe").contains("scoop update lore"));
    assert!(said("/home/alp/.local/bin/lore").contains("releases"));
}

#[test]
fn the_version_command_says_where_you_stand() {
    let current = version("0.2.2");
    let exe = "/opt/homebrew/Cellar/lore/0.2.2/bin/lore";

    let behind = report(&current, Some(version("0.3.0")), Some(exe));
    assert!(behind.starts_with("lore 0.2.2\n"), "{behind}");
    assert!(behind.contains("newest release is 0.3.0"), "{behind}");
    assert!(behind.contains("brew upgrade lore"), "{behind}");

    let patch = report(&current, Some(version("0.2.3")), Some(exe));
    assert!(patch.contains("newest release is 0.2.3"), "{patch}");
    assert!(patch.contains("brew upgrade lore"), "{patch}");

    let current_release = report(&current, Some(current), Some(exe));
    assert!(current_release.contains("This is the newest release"), "{current_release}");

    let offline = report(&current, None, Some(exe));
    assert!(offline.contains("Could not check"), "{offline}");
    assert!(offline.contains("/releases"), "{offline}");
}

#[test]
fn the_newest_tag_wins_whatever_order_they_arrive_in() {
    let refs = "a1\trefs/tags/v0.1.0\nb2\trefs/tags/v0.10.1\nc3\trefs/tags/v0.9.0\nd4\trefs/tags/broken\n";
    assert_eq!(newest(refs), Version::parse("0.10.1"));
    assert!(newest("").is_none());
}

#[test]
fn a_version_is_labelled_the_way_it_was_released() {
    assert_eq!(version("v1.20.3").label(), "1.20.3");
    assert!(version("0.3.0").newer_than(&version("0.2.9")));
    assert!(!version("0.2.9").newer_than(&version("0.2.9")));
    assert!(version("0.3.0").worth_announcing_over(&version("0.2.2")));
    assert!(!version("0.2.3").worth_announcing_over(&version("0.2.2")));
}
