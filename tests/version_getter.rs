use scaffold::version_getter::{parse_search_output, VersionGetter};

#[test]
fn test_something() {
    let version = VersionGetter::make_tilde_version("1.0.106");
    assert_eq!(version, Some("~1.0".to_string()));
}

#[test]
fn tilde_of_version_without_dot_keeps_it_whole() {
    assert_eq!(VersionGetter::make_tilde_version("7"), Some("~7".to_string()));
    assert_eq!(VersionGetter::make_tilde_version("0.3"), Some("~0".to_string()));
}

#[test]
fn search_output_gives_version_of_same_name() {
    let out = "serde = \"1.0.104\"    # A generic serialization/deserialization framework\n... and 12 crates more\n";
    assert_eq!(parse_search_output("serde", out), Some("1.0.104".to_string()));
}

#[test]
fn search_output_for_other_name_gives_none() {
    let out = "serde_json = \"1.0.48\"    # A JSON serialization file format\n";
    assert_eq!(parse_search_output("serde", out), None);
}

#[test]
fn empty_or_short_search_output_gives_none() {
    assert_eq!(parse_search_output("serde", ""), None);
    assert_eq!(parse_search_output("serde", "\nserde = \"1.0\"\n"), None);
    assert_eq!(parse_search_output("serde", "serde =\n"), None);
}

#[test]
fn second_resolution_reads_no_output() {
    let mut getter = VersionGetter::default();
    assert_eq!(getter.lookup("tokio", false), None);
    let first = getter.get_crate_version("tokio", false, "tokio = \"1.28.0\"    # runtime\n");
    assert_eq!(first, Some("1.28.0".to_string()));
    let second = getter.get_crate_version("tokio", false, "tokio = \"9.9.9\"\n");
    assert_eq!(second, Some("1.28.0".to_string()));
    assert_eq!(getter.lookup("tokio", true), Some(Some("~1.28".to_string())));
}

#[test]
fn version_not_found_is_remembered() {
    let mut getter = VersionGetter::default();
    assert_eq!(getter.get_crate_version("nothing", false, ""), None);
    assert_eq!(getter.lookup("nothing", false), Some(None));
    assert_eq!(getter.get_crate_version("nothing", false, "nothing = \"1.0.0\"\n"), None);
}

#[test]
fn tilde_mode_applies_to_found_version() {
    let mut getter = VersionGetter::default();
    let v = getter.get_crate_version("rand", true, "rand = \"0.8.5\"    # Random number generators\n");
    assert_eq!(v, Some("~0.8".to_string()));
}
