use scaffold::arguments::{Arguments, Subcommand};
use scaffold::error::{ParseFault, ScaffoldError};
use scaffold::group_reader::{get_groups, Dependency, Version};
use scaffold::toml_editor::{add_groups, read_toml_str, write_toml_str};
use scaffold::version_getter::VersionGetter;

const GROUPS: &str = "[web]\nserde = \"1.0\"\ntokio = { version = \"\", features = [\"full\"] }\n";
const EMPTY_MANIFEST: &str = "[package]\nname = \"demo\"\nversion = \"0.1.0\"\n\n[dependencies]\n";

fn tokio_resolved() -> VersionGetter {
    let mut getter = VersionGetter::default();
    getter.get_crate_version("tokio", false, "tokio = \"1.28.0\"    # An event-driven runtime\n");
    getter
}

#[test]
fn add_web_group_to_empty_manifest() {
    let groups = get_groups(GROUPS).ok().unwrap();
    let mut config = read_toml_str(EMPTY_MANIFEST).ok().unwrap();
    let getter = tokio_resolved();
    let names = vec!["web".to_string()];
    assert!(add_groups(&mut config, &groups, &names, &getter, false).is_ok());
    config.sort_dependencies();
    let keys: Vec<&String> = config.dependencies.keys().collect();
    assert_eq!(keys, vec!["serde", "tokio"]);
    assert_eq!(config.dependencies["serde"].as_str(), Some("1.0"));
    let tokio = config.dependencies["tokio"].as_table().unwrap();
    assert_eq!(tokio.get("version").and_then(|v| v.as_str()), Some("1.28.0"));
    let features = tokio.get("features").unwrap().as_array().unwrap();
    assert_eq!(features.len(), 1);
    assert_eq!(features[0].as_str(), Some("full"));
    assert_eq!(tokio.len(), 2);

    let text = write_toml_str(&config).ok().unwrap();
    let back: toml::Value = toml::from_str(&text).unwrap();
    let deps = back.get("dependencies").unwrap();
    assert_eq!(deps.get("serde").and_then(|v| v.as_str()), Some("1.0"));
    assert_eq!(
        deps.get("tokio").and_then(|t| t.get("version")).and_then(|v| v.as_str()),
        Some("1.28.0")
    );
}

#[test]
fn add_missing_group_fails() {
    let groups = get_groups(GROUPS).ok().unwrap();
    let mut config = read_toml_str(EMPTY_MANIFEST).ok().unwrap();
    let getter = VersionGetter::default();
    let names = vec!["missing-group".to_string()];
    let r = add_groups(&mut config, &groups, &names, &getter, false);
    assert!(matches!(r, Err(ScaffoldError::GroupNotFound(ref n)) if n == "missing-group"));
    assert_eq!(config.dependencies.len(), 0);
}

#[test]
fn sorting_twice_keeps_first_order() {
    let text = "[package]\nname = \"x\"\n\n[dependencies]\nzeta = \"1\"\nrand = { version = \"0.8\" }\nalpha = \"2\"\nbeta = { path = \"../beta\" }\n";
    let mut config = read_toml_str(text).ok().unwrap();
    config.sort_dependencies();
    let once: Vec<String> = config.dependencies.keys().cloned().collect();
    assert_eq!(once, vec!["alpha", "zeta", "beta", "rand"]);
    config.sort_dependencies();
    let twice: Vec<String> = config.dependencies.keys().cloned().collect();
    assert_eq!(once, twice);
}

#[test]
fn round_trip_keeps_top_level_keys() {
    let text = "cargo-features = [\"edition2024\"]\n\n[package]\nname = \"x\"\nversion = \"0.1.0\"\n\n[dependencies]\nserde = \"1\"\n\n[features]\ndefault = [\"std\"]\n\n[profile.release]\nlto = true\n";
    let config = read_toml_str(text).ok().unwrap();
    let written = write_toml_str(&config).ok().unwrap();
    let before: toml::Value = toml::from_str(text).unwrap();
    let after: toml::Value = toml::from_str(&written).unwrap();
    let mut keys_before: Vec<&String> = before.as_table().unwrap().keys().collect();
    let mut keys_after: Vec<&String> = after.as_table().unwrap().keys().collect();
    keys_before.sort();
    keys_after.sort();
    assert_eq!(keys_before, keys_after);
    assert_eq!(before.get("features"), after.get("features"));
    assert_eq!(before.get("profile"), after.get("profile"));
    assert_eq!(before.get("package"), after.get("package"));
    assert_eq!(before.get("cargo-features"), after.get("cargo-features"));
}

#[test]
fn manifest_without_dependencies_is_refused() {
    let r = read_toml_str("[package]\nname = \"x\"\n");
    assert!(matches!(r, Err(ScaffoldError::TomlDe(ParseFault::MissingSection(ref n))) if n == "dependencies"));
    let r = read_toml_str("[dependencies]\n");
    assert!(matches!(r, Err(ScaffoldError::TomlDe(ParseFault::MissingSection(ref n))) if n == "package"));
}

#[test]
fn manifest_section_that_is_no_table_is_refused() {
    let r = read_toml_str("package = \"x\"\n[dependencies]\n");
    assert!(matches!(r, Err(ScaffoldError::TomlDe(ParseFault::NotATable(ref n))) if n == "package"));
}

#[test]
fn invalid_toml_is_a_parse_error() {
    assert!(matches!(read_toml_str("[package"), Err(ScaffoldError::TomlDe(ParseFault::Syntax(_)))));
    assert!(matches!(get_groups("web = {"), Err(ScaffoldError::TomlDe(ParseFault::Syntax(_)))));
}

#[test]
fn group_that_is_no_table_is_refused() {
    let r = get_groups("web = \"1.0\"\n");
    assert!(matches!(r, Err(ScaffoldError::TomlDe(ParseFault::NotATable(ref n))) if n == "web"));
}

#[test]
fn groups_are_sorted_and_odd_entries_dropped() {
    let groups = get_groups("[g]\nzz = \"1\"\naa = \"*\"\nnum = 5\nmm = { version = \"2.0\", optional = true }\n").ok().unwrap();
    let deps = groups.get("g").unwrap();
    let names: Vec<&str> = deps.iter().map(|d| d.name.as_str()).collect();
    assert_eq!(names, vec!["aa", "mm", "zz"]);
    assert!(matches!(deps[0].version, Version::Latest));
    assert!(matches!(deps[1].version, Version::Specific(ref s) if s == "2.0"));
    let other = deps[1].other.as_ref().unwrap().as_table().unwrap();
    assert!(other.get("version").is_none());
    assert_eq!(other.get("optional").and_then(|v| v.as_bool()), Some(true));
    assert!(groups.get("h").is_none());
}

#[test]
fn table_without_version_asks_for_newest() {
    let t: toml::Value = toml::from_str("x = { features = [\"a\"] }").unwrap();
    let d = Dependency::from_value("x", t.get("x").unwrap().clone()).unwrap();
    assert!(matches!(d.version, Version::Latest));
    assert!(Dependency::from_value("y", toml::Value::Integer(3)).is_none());
}

#[test]
fn version_text_reading() {
    assert!(matches!(Version::from_str(""), Version::Latest));
    assert!(matches!(Version::from_str("*"), Version::Latest));
    assert!(matches!(Version::from_str("1.0"), Version::Specific(ref s) if s == "1.0"));
}

#[test]
fn pretty_strings() {
    let groups = get_groups(GROUPS).ok().unwrap();
    let deps = groups.get("web").unwrap();
    let getter = tokio_resolved();
    let serde = deps[0].get_pretty_string(&getter, false).ok().unwrap();
    assert_eq!(serde, "serde = \"1.0\"");
    let tokio = deps[1].get_pretty_string(&getter, false).ok().unwrap();
    assert_eq!(tokio, "tokio = { features = [\"full\"], version = \"1.28.0\" }");
    assert_eq!(deps[1].get_version_as_string(&getter, true), "~1.28");
}

#[test]
fn unresolved_newest_version_is_a_wildcard() {
    let groups = get_groups("[g]\nnothing = \"\"\n").ok().unwrap();
    let mut getter = VersionGetter::default();
    getter.get_crate_version("nothing", false, "");
    let deps = groups.get("g").unwrap();
    assert_eq!(deps[0].get_version_as_string(&getter, false), "*");
}

#[test]
fn paths_without_tilde_stay() {
    let args = Arguments {
        toml_path: "Cargo.toml".to_string(),
        groups_path: "~/.config/scaffold/groups.toml".to_string(),
        ask: false,
        verbose: false,
        use_tilde_version: false,
        subcommand: Subcommand::List,
    };
    assert_eq!(args.get_toml_path(), "Cargo.toml");
    let groups = args.get_groups_path();
    assert!(groups.ends_with("/.config/scaffold/groups.toml"));
}

#[test]
fn table_with_only_version_has_no_other_fields() {
    let groups = get_groups("[g]\nfoo = { version = \"1.0\" }\n").ok().unwrap();
    let deps = groups.get("g").unwrap();
    assert!(deps[0].other.is_none());
    assert!(matches!(deps[0].version, Version::Specific(ref s) if s == "1.0"));
    let mut config = read_toml_str(EMPTY_MANIFEST).ok().unwrap();
    let getter = VersionGetter::default();
    config.add_dependency(&deps[0], &getter, false);
    assert_eq!(config.dependencies["foo"].as_str(), Some("1.0"));
    assert_eq!(deps[0].get_pretty_string(&getter, false).ok().unwrap(), "foo = \"1.0\"");
}

#[test]
fn dependencies_needing_a_search() {
    let groups = get_groups(GROUPS).ok().unwrap();
    let deps = groups.get("web").unwrap();
    let empty = VersionGetter::default();
    assert!(!deps[0].needs_search(&empty));
    assert!(deps[1].needs_search(&empty));
    assert!(!deps[1].needs_search(&tokio_resolved()));
}

#[test]
fn error_messages() {
    assert_eq!(
        ScaffoldError::GroupNotFound("web".to_string()).message(),
        "Group could not be found: web"
    );
    assert_eq!(
        ScaffoldError::TomlDe(ParseFault::MissingSection("package".to_string())).message(),
        "Serialization error: missing package"
    );
    assert_eq!(
        ScaffoldError::TomlDe(ParseFault::NotATable("package".to_string())).message(),
        "Serialization error: package is not a table"
    );
    assert_eq!(
        ScaffoldError::TomlDe(ParseFault::NotATable(String::new())).message(),
        "Serialization error: the document is not a table"
    );
    assert_eq!(
        ScaffoldError::VersionLookupFailed("tokio".to_string()).message(),
        "Crate search failed for tokio"
    );
    match read_toml_str("[package") {
        Err(e) => {
            let m = e.message();
            assert!(m.starts_with("Serialization error: "));
            assert!(m.len() > "Serialization error: ".len());
        }
        Ok(_) => panic!("a broken document was read"),
    }
}
