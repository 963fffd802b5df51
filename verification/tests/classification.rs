use fedora_update_notifier::classify::{
    classify, relevant_updates, run_classification, Build, Comment, UpdateRecord,
};
use fedora_update_notifier::config::RunConfiguration;
use fedora_update_notifier::parse::Nvr;

fn nvr(name: &str, version: &str, release: &str) -> Nvr {
    Nvr { name: name.to_owned(), version: version.to_owned(), release: release.to_owned() }
}

fn record(alias: &str, author: &str, comments: Option<&[&str]>, builds: &[&str]) -> UpdateRecord {
    UpdateRecord {
        alias: alias.to_owned(),
        author: author.to_owned(),
        comments: comments.map(|cs| {
            cs.iter().map(|c| Comment { author: (*c).to_owned() }).collect()
        }),
        builds: builds.iter().map(|b| Build { nvr: (*b).to_owned() }).collect(),
    }
}

fn config(username: &str, interests: &[&str]) -> RunConfiguration {
    RunConfiguration {
        username: username.to_owned(),
        interests: interests.iter().map(|i| (*i).to_owned()).collect(),
    }
}

#[test]
fn authored_records_are_dropped() {
    // authored by the user: excluded even though its build is installed
    let updates = vec![
        record("U1", "alice", None, &["foo-1.0-1"]),
        record("U2", "bob", None, &["foo-1.0-1"]),
    ];
    let rel = relevant_updates(&updates, "alice");
    assert_eq!(rel.len(), 1);
    assert_eq!(rel[0].alias, "U2");

    let inv = vec![nvr("foo", "1.0", "1")];
    let res = run_classification(&inv, &updates, &config("alice", &[])).unwrap();
    assert_eq!(res.feedback_pending, vec!["foo".to_owned()]);
}

#[test]
fn commented_records_are_dropped() {
    // commented on by the user: excluded whoever authored it
    let updates = vec![
        record("U1", "bob", Some(&["carol", "alice"]), &["foo-1.0-1"]),
        record("U2", "bob", Some(&["carol"]), &["bar-1.0-1"]),
        record("U3", "bob", Some(&[]), &["baz-1.0-1"]),
    ];
    let rel = relevant_updates(&updates, "alice");
    assert_eq!(rel.len(), 2);
    assert_eq!(rel[0].alias, "U2");
    assert_eq!(rel[1].alias, "U3");
}

#[test]
fn records_without_comments_pass() {
    let updates = vec![record("U1", "bob", None, &["foo-1.0-1"])];
    let rel = relevant_updates(&updates, "alice");
    assert_eq!(rel.len(), 1);
}

#[test]
fn feedback_names_are_sorted_and_unique() {
    let inv = vec![nvr("zebra", "1.0", "1"), nvr("apple", "2.0", "1")];
    let rel = vec![
        record("U1", "bob", None, &["zebra-1.0-1", "mango-3-1"]),
        record("U2", "bob", None, &["apple-2.0-1", "zebra-9-9"]),
    ];
    let res = classify(&inv, &rel, &Vec::new()).unwrap();
    assert_eq!(
        res.feedback_pending,
        vec!["apple".to_owned(), "mango".to_owned(), "zebra".to_owned()]
    );
}

#[test]
fn interesting_needs_installed_watched_and_pending() {
    let inv = vec![nvr("foo", "1.0", "1")];
    // not watched
    let res = classify(&inv, &vec![record("U1", "bob", None, &["foo-1.1-1"])], &Vec::new())
        .unwrap();
    assert!(res.interesting_pending.is_empty());
    // watched but not installed by name
    let ints = vec!["bar".to_owned()];
    let res = classify(&inv, &vec![record("U2", "bob", None, &["bar-1.1-1"])], &ints).unwrap();
    assert!(res.interesting_pending.is_empty());
    // watched and installed by name, but the exact build is installed
    let ints = vec!["foo".to_owned()];
    let res = classify(&inv, &vec![record("U3", "bob", None, &["foo-1.0-1"])], &ints).unwrap();
    assert!(res.interesting_pending.is_empty());
    // watched, installed by name, pending build not installed
    let res = classify(&inv, &vec![record("U4", "bob", None, &["foo-1.1-1"])], &ints).unwrap();
    assert_eq!(res.interesting_pending.len(), 1);
    assert_eq!(res.interesting_pending[0].alias, "U4");
}

#[test]
fn interesting_is_deduplicated_and_sorted_by_alias() {
    let inv = vec![nvr("foo", "1.0", "1")];
    let ints = vec!["foo".to_owned()];
    let rel = vec![
        record("U9", "bob", None, &["foo-1.2-1"]),
        record("U1", "bob", None, &["foo-1.1-1"]),
        record("U9", "carol", None, &["foo-1.3-1"]),
    ];
    let res = classify(&inv, &rel, &ints).unwrap();
    let aliases: Vec<&str> = res.interesting_pending.iter().map(|r| r.alias.as_str()).collect();
    assert_eq!(aliases, vec!["U1", "U9"]);
    // the first record seen for a duplicated alias is the one kept
    assert_eq!(res.interesting_pending[1].author, "bob");
}

#[test]
fn record_level_flags_span_all_builds() {
    // one build exactly installed, another watched: the record as a
    // whole is installed, watched and pending, so it qualifies, and
    // every one of its build names is owed feedback
    let inv = vec![nvr("foo", "1.0", "1")];
    let ints = vec!["bar".to_owned()];
    let rel = vec![record("U1", "bob", None, &["foo-1.0-1", "bar-9-1"])];
    let res = classify(&inv, &rel, &ints).unwrap();
    assert_eq!(res.feedback_pending, vec!["bar".to_owned(), "foo".to_owned()]);
    assert_eq!(res.interesting_pending.len(), 1);
    assert_eq!(res.interesting_pending[0].alias, "U1");
}

#[test]
fn bad_build_reference_aborts() {
    let inv = vec![nvr("foo", "1.0", "1")];
    let rel = vec![record("U1", "bob", None, &["foo-1.1-1", "bad"])];
    let e = classify(&inv, &rel, &Vec::new()).unwrap_err();
    assert_eq!(e.input, "bad");
}

#[test]
fn installed_pending_update_is_feedback_only() {
    // inventory {(foo,1.1,1)}; one relevant update whose build foo-1.1-1
    // is installed exactly; no interests: feedback ["foo"], nothing
    // interesting
    let inv = vec![nvr("foo", "1.1", "1")];
    let updates = vec![record("U1", "bob", None, &["foo-1.1-1"])];
    let res = run_classification(&inv, &updates, &config("alice", &[])).unwrap();
    assert_eq!(res.feedback_pending, vec!["foo".to_owned()]);
    assert!(res.interesting_pending.is_empty());
}

#[test]
fn matching_needs_all_three_fields() {
    // inventory {(foo,1.0,1)} and pending build foo-1.1-1: versions
    // differ, so the record matches nothing and no feedback is owed
    let inv = vec![nvr("foo", "1.0", "1")];
    let updates = vec![record("U1", "bob", None, &["foo-1.1-1"])];
    let res = run_classification(&inv, &updates, &config("alice", &[])).unwrap();
    assert!(res.feedback_pending.is_empty());
    assert!(res.interesting_pending.is_empty());
}

#[test]
fn watched_pending_update_is_interesting() {
    // inventory {(foo,1.0,1)}; interests {foo}; pending foo-1.1-1 not
    // installed exactly: interesting [U2]
    let inv = vec![nvr("foo", "1.0", "1")];
    let updates = vec![record("U2", "bob", None, &["foo-1.1-1"])];
    let res = run_classification(&inv, &updates, &config("alice", &["foo"])).unwrap();
    assert_eq!(res.interesting_pending.len(), 1);
    assert_eq!(res.interesting_pending[0].alias, "U2");
}
