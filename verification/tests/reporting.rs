use fedora_update_notifier::config::{merge_config, FileConfig};
use fedora_update_notifier::report::testing_url;

#[test]
fn url_joins_packages_with_commas() {
    let names = vec!["foo".to_owned(), "bar".to_owned()];
    assert_eq!(
        testing_url("F40", &names),
        "https://bodhi.fedoraproject.org/updates/?release=F40&status=testing&packages=foo,bar"
    );
}

#[test]
fn url_with_one_package_has_no_comma() {
    let names = vec!["foo".to_owned()];
    assert_eq!(
        testing_url("F41", &names),
        "https://bodhi.fedoraproject.org/updates/?release=F41&status=testing&packages=foo"
    );
}

#[test]
fn url_with_no_packages_ends_empty() {
    assert_eq!(
        testing_url("F40", &Vec::new()),
        "https://bodhi.fedoraproject.org/updates/?release=F40&status=testing&packages="
    );
}

fn file(username: &str, interests: &[&str]) -> FileConfig {
    FileConfig {
        username: username.to_owned(),
        interests: interests.iter().map(|i| (*i).to_owned()).collect(),
    }
}

#[test]
fn cli_username_overrides_file() {
    let c = merge_config(Some(file("filed", &["a"])), Some("argued".to_owned()), None).unwrap();
    assert_eq!(c.username, "argued");
    assert_eq!(c.interests, vec!["a".to_owned()]);
}

#[test]
fn cli_interests_append_to_file() {
    let c = merge_config(
        Some(file("filed", &["a", "b"])),
        None,
        Some(vec!["c".to_owned()]),
    )
    .unwrap();
    assert_eq!(c.username, "filed");
    assert_eq!(c.interests, vec!["a".to_owned(), "b".to_owned(), "c".to_owned()]);
}

#[test]
fn missing_username_fails() {
    assert!(merge_config(None, None, Some(vec!["a".to_owned()])).is_err());
}

#[test]
fn empty_username_fails() {
    assert!(merge_config(Some(file("", &[])), None, None).is_err());
}

#[test]
fn no_sources_give_empty_interests() {
    let c = merge_config(None, Some("argued".to_owned()), None).unwrap();
    assert!(c.interests.is_empty());
}
