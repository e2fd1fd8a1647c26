use spyland::config::{ConfigError, ConfigTree};
use toml::Value;

fn value_of(tree: &ConfigTree) -> Value {
    match tree {
        ConfigTree::Table(entries) => Value::Table(
            entries.iter().map(|(k, v)| (k.clone(), value_of(v))).collect(),
        ),
        ConfigTree::Leaf(v) => v.clone(),
    }
}

fn parse(text: &str) -> ConfigTree {
    ConfigTree::from_toml(text).unwrap()
}

fn save_and_load(tree: &ConfigTree) -> ConfigTree {
    parse(&tree.to_toml().unwrap())
}

fn leaf(tree: &ConfigTree, name: &str) -> Option<Value> {
    match tree.get_section(name) {
        Some(ConfigTree::Leaf(v)) => Some(v.clone()),
        _ => None,
    }
}

fn table(entries: Vec<(&str, Value)>) -> ConfigTree {
    ConfigTree::Table(
        entries.into_iter().map(|(k, v)| (k.to_string(), ConfigTree::Leaf(v))).collect(),
    )
}

#[test]
fn test_config_get_section() {
    let text = format!(
        "\n[core]\nflush_interval = {}\nmin_session_duration = {}\n\n[backend.niri]\nidle_timeout = {}\nidle_on_overview = {}\n",
        30, 10, 300, true
    );
    let tree = parse(&text);
    assert_eq!(leaf(&tree, "core.flush_interval"), Some(Value::Integer(30)));
    assert_eq!(leaf(&tree, "core.min_session_duration"), Some(Value::Integer(10)));
    assert_eq!(leaf(&tree, "backend.niri.idle_timeout"), Some(Value::Integer(300)));
    assert_eq!(leaf(&tree, "backend.niri.idle_on_overview"), Some(Value::Boolean(true)));
    assert!(matches!(tree.get_section("backend.niri"), Some(ConfigTree::Table(_))));
}

#[test]
fn test_config_get_missing_section() {
    let tree = parse("");
    assert!(tree.get_section("core").is_none());
    assert!(tree.get_section("backend.niri").is_none());
}

#[test]
fn test_config_set_section() {
    let mut tree = parse("[core]\nflush_interval = 15");
    let backend = table(vec![
        ("idle_timeout", Value::Integer(180)),
        ("idle_on_overview", Value::Boolean(false)),
    ]);
    assert_eq!(tree.set_section("backend.niri", backend), Ok(()));
    let tree = save_and_load(&tree);
    assert_eq!(leaf(&tree, "backend.niri.idle_timeout"), Some(Value::Integer(180)));
    assert_eq!(leaf(&tree, "backend.niri.idle_on_overview"), Some(Value::Boolean(false)));
    assert_eq!(leaf(&tree, "core.flush_interval"), Some(Value::Integer(15)));
}

#[test]
fn test_config_by_name() {
    let mut tree = parse(&format!("[core]\nflush_interval = {}\n", 42));
    assert_eq!(leaf(&tree, "core.flush_interval"), Some(Value::Integer(42)));
    let backend = table(vec![
        ("idle_timeout", Value::Integer(100)),
        ("idle_on_overview", Value::Boolean(true)),
    ]);
    assert_eq!(tree.set_section("backend.niri", backend), Ok(()));
    let tree = save_and_load(&tree);
    assert_eq!(leaf(&tree, "backend.niri.idle_timeout"), Some(Value::Integer(100)));
    assert_eq!(leaf(&tree, "backend.niri.idle_on_overview"), Some(Value::Boolean(true)));
}

#[test]
fn config_write_replaces_existing_section() {
    let mut tree = parse("[frontend.cli]\nsort_ascending = true\n[core]\nflush_interval = 5\n");
    let cli = table(vec![("sort_ascending", Value::Boolean(false))]);
    assert_eq!(tree.set_section("frontend.cli", cli), Ok(()));
    assert_eq!(leaf(&tree, "frontend.cli.sort_ascending"), Some(Value::Boolean(false)));
    assert_eq!(leaf(&tree, "core.flush_interval"), Some(Value::Integer(5)));
}

#[test]
fn config_write_single_part_section() {
    let mut tree = parse("");
    let core = table(vec![("flush_interval", Value::Integer(7))]);
    assert_eq!(tree.set_section("core", core), Ok(()));
    assert_eq!(leaf(&tree, "core.flush_interval"), Some(Value::Integer(7)));
}

#[test]
fn config_write_under_a_value_fails_on_parent() {
    let mut tree = parse("[core]\nflush_interval = 15\n");
    let r = tree.set_section("core.flush_interval.x", table(vec![]));
    assert_eq!(r, Err(ConfigError::ParentNotTable));
    assert_eq!(leaf(&tree, "core.flush_interval"), Some(Value::Integer(15)));
}

#[test]
fn config_write_through_a_value_fails() {
    let mut tree = parse("[core]\nflush_interval = 15\n");
    let r = tree.set_section("core.flush_interval.x.y", table(vec![]));
    assert_eq!(r, Err(ConfigError::SectionNotTable));
    assert_eq!(value_of(&tree), value_of(&parse("[core]\nflush_interval = 15\n")));
}

#[test]
fn config_write_into_a_leaf_document_fails() {
    let mut tree = ConfigTree::Leaf(Value::Integer(1));
    assert_eq!(tree.set_section("core", table(vec![])), Err(ConfigError::ParentNotTable));
    assert_eq!(tree.set_section("a.b", table(vec![])), Err(ConfigError::SectionNotTable));
}

#[test]
fn config_missing_inner_section_reads_none() {
    let tree = parse("[core]\nflush_interval = 15\n");
    assert!(tree.get_section("core.missing").is_none());
    assert!(tree.get_section("core.flush_interval.deeper").is_none());
}

#[test]
fn config_invalid_text_is_refused() {
    assert!(ConfigTree::from_toml("[core\nflush_interval = ").is_err());
    assert!(ConfigTree::from_toml("a = 1\na = 2\n").is_err());
}

#[test]
fn config_text_round_trip() {
    let tree = parse("[core]\nflush_interval = 15\n[backend.niri]\nidle_timeout = 3\n");
    let text = tree.to_toml().unwrap();
    assert!(text.contains("flush_interval = 15"));
    assert!(text.contains("idle_timeout = 3"));
    assert_eq!(value_of(&parse(&text)), value_of(&tree));
}
