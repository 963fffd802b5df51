use fedora_update_notifier::inventory::{build_inventory, split_newlines, trim};
use fedora_update_notifier::parse::{parse_filename, parse_nevra, parse_nvr};

#[test]
fn filename_with_epoch_and_hyphenated_name() {
    let ne = parse_filename("foo-bar-1:2.3-4.fc40.x86_64.rpm").unwrap();
    assert_eq!(ne.name, "foo-bar");
    assert_eq!(ne.epoch, "1");
    assert_eq!(ne.version, "2.3");
    assert_eq!(ne.release, "4.fc40");
    assert_eq!(ne.arch, "x86_64");
}

#[test]
fn filename_without_epoch_defaults_to_zero() {
    let ne = parse_filename("pkg-1.0-1.fc40.noarch.rpm").unwrap();
    assert_eq!(ne.name, "pkg");
    assert_eq!(ne.epoch, "0");
    assert_eq!(ne.version, "1.0");
    assert_eq!(ne.release, "1.fc40");
    assert_eq!(ne.arch, "noarch");
}

#[test]
fn malformed_filename_is_rejected() {
    let e = parse_filename("nohyphen.rpm").unwrap_err();
    assert_eq!(e.input, "nohyphen");
    assert!(parse_filename("").is_err());
    assert!(parse_filename("nodots").is_err());
    assert!(parse_filename("only-hyphens-here").is_err());
    // enough dots, but no hyphen structure in the remainder
    assert!(parse_filename("nohyphens.x86_64.rpm").is_err());
}

#[test]
fn nevra_parses_without_extension() {
    let ne = parse_nevra("tool-2:0.5-2.fc41.aarch64").unwrap();
    assert_eq!(ne.name, "tool");
    assert_eq!(ne.epoch, "2");
    assert_eq!(ne.version, "0.5");
    assert_eq!(ne.release, "2.fc41");
    assert_eq!(ne.arch, "aarch64");
}

#[test]
fn nvr_splits_from_the_right() {
    let nvr = parse_nvr("foo-1.1-1").unwrap();
    assert_eq!(nvr.name, "foo");
    assert_eq!(nvr.version, "1.1");
    assert_eq!(nvr.release, "1");

    let nvr = parse_nvr("foo-bar-2.0-3").unwrap();
    assert_eq!(nvr.name, "foo-bar");
    assert_eq!(nvr.version, "2.0");
    assert_eq!(nvr.release, "3");
}

#[test]
fn nvr_needs_three_parts() {
    let e = parse_nvr("foo-1").unwrap_err();
    assert_eq!(e.input, "foo-1");
    assert!(parse_nvr("foo").is_err());
    assert!(parse_nvr("").is_err());
}

#[test]
fn trim_strips_blank_ends() {
    assert_eq!(trim("  hello \n"), "hello");
    assert_eq!(trim("\n\n"), "");
    assert_eq!(trim(""), "");
    assert_eq!(trim("a b"), "a b");
}

#[test]
fn split_keeps_every_segment() {
    assert_eq!(split_newlines("a\nb\nc"), vec!["a", "b", "c"]);
    assert_eq!(split_newlines(""), vec![""]);
    assert_eq!(split_newlines("a\n\nb"), vec!["a", "", "b"]);
}

#[test]
fn inventory_from_listing() {
    let raw = "foo-1.0-1.fc40.src.rpm\nbar-2:3.4-5.fc40.src.rpm\n";
    let inv = build_inventory(raw).unwrap();
    assert_eq!(inv.len(), 2);
    assert_eq!(inv[0].name, "foo");
    assert_eq!(inv[0].version, "1.0");
    assert_eq!(inv[0].release, "1.fc40");
    assert_eq!(inv[1].name, "bar");
    assert_eq!(inv[1].version, "3.4");
    assert_eq!(inv[1].release, "5.fc40");
}

#[test]
fn inventory_aborts_on_first_bad_line() {
    let raw = "foo-1.0-1.fc40.src.rpm\nbadline\nbar-2-1.fc40.src.rpm";
    let e = build_inventory(raw).unwrap_err();
    assert_eq!(e.input, "badline");
}

#[test]
fn epoch_splits_at_first_colon() {
    // the first ':' separates the epoch; later ones stay in the version
    let ne = parse_nevra("pkg-1:2:3-1.x86_64").unwrap();
    assert_eq!(ne.epoch, "1");
    assert_eq!(ne.version, "2:3");
    assert_eq!(ne.release, "1");
}

#[test]
fn matching_ignores_epoch_and_architecture() {
    // the reduced identifiers agree although epoch and architecture differ
    let a = parse_filename("a-1-1.x86_64.rpm").unwrap().to_nvr();
    let b = parse_filename("a-2:1-1.noarch.rpm").unwrap().to_nvr();
    assert_eq!(a.name, b.name);
    assert_eq!(a.version, b.version);
    assert_eq!(a.release, b.release);
}
