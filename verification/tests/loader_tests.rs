use safemask::rules::ConfigLoader;
use safemask::rules::Rule;
use safemask::rules::RuleGroup;
use safemask::rules::RuleManager;
use safemask::rules::default_priority;
use safemask::rules::default_true;
use safemask::rules::is_literal;

fn rule(name: &str, pattern: &str, mask: &str, priority: i32) -> Rule {
    Rule {
        name: name.to_string(),
        pattern: pattern.to_string(),
        mask: mask.to_string(),
        priority,
        enabled: true,
        is_custom: false,
    }
}

fn group(name: &str, rules: Vec<Rule>) -> RuleGroup {
    RuleGroup { group: name.to_string(), rules }
}

#[test]
fn is_literal_plain_keyword() {
    assert!(is_literal("secret"));
    assert!(is_literal("hello world"));
}

#[test]
fn is_literal_rejects_metacharacters() {
    assert!(!is_literal("a.c"));
    assert!(!is_literal("1[3-9][0-9]{9}"));
    assert!(!is_literal("x+"));
    assert!(!is_literal("a|b"));
    assert!(!is_literal("end$"));
    assert!(!is_literal("^start"));
    assert!(!is_literal("esc\\d"));
}

#[test]
fn defaults_match_serialized_form() {
    assert_eq!(default_priority(), 0);
    assert!(default_true());
}

#[test]
fn load_all_rules_tags_provenance() {
    let loaded = RuleManager::load_all_rules(
        vec![group("builtin", vec![rule("a", "p1", "m1", 1)])],
        vec![group("CUSTOM", vec![rule("b", "p2", "m2", 2)])],
    );
    assert_eq!(loaded.len(), 2);
    assert_eq!(loaded[0].name, "a");
    assert!(!loaded[0].is_custom);
    assert_eq!(loaded[1].name, "b");
    assert!(loaded[1].is_custom);
}

#[test]
fn load_all_rules_last_writer_wins() {
    let loaded = RuleManager::load_all_rules(
        vec![group(
            "builtin",
            vec![rule("dup", "old", "m1", 1), rule("keep", "k", "m", 0)],
        )],
        vec![group("CUSTOM", vec![rule("dup", "new", "m2", 2)])],
    );
    assert_eq!(loaded.len(), 2);
    assert_eq!(loaded[0].name, "keep");
    assert_eq!(loaded[1].name, "dup");
    assert_eq!(loaded[1].pattern, "new");
    assert!(loaded[1].is_custom);
}

#[test]
fn load_all_rules_flattens_groups_in_order() {
    let loaded = RuleManager::load_all_rules(
        vec![
            group("g1", vec![rule("a", "p", "m", 0)]),
            group("g2", vec![rule("b", "p", "m", 0)]),
        ],
        vec![],
    );
    assert_eq!(loaded.len(), 2);
    assert_eq!(loaded[0].name, "a");
    assert_eq!(loaded[1].name, "b");
}

#[test]
fn save_custom_rule_appends_new_name() {
    let saved = RuleManager::save_custom_rule(vec![rule("a", "p", "m", 0)], rule("b", "q", "n", 1));
    assert_eq!(saved.len(), 2);
    assert_eq!(saved[1].name, "b");
    assert!(saved[1].is_custom);
}

#[test]
fn save_custom_rule_replaces_same_name() {
    let saved = RuleManager::save_custom_rule(
        vec![rule("a", "p", "m", 0), rule("b", "q", "n", 1)],
        rule("a", "p2", "m2", 7),
    );
    assert_eq!(saved.len(), 2);
    assert_eq!(saved[0].pattern, "p2");
    assert_eq!(saved[0].mask, "m2");
    assert_eq!(saved[0].priority, 7);
    assert!(saved[0].is_custom);
    assert_eq!(saved[1].name, "b");
}

#[test]
fn delete_custom_rule_removes_by_name() {
    let left = RuleManager::delete_custom_rule(
        vec![rule("a", "p", "m", 0), rule("b", "q", "n", 1)],
        &"a".to_string(),
    );
    assert_eq!(left.len(), 1);
    assert_eq!(left[0].name, "b");
}

#[test]
fn delete_custom_rule_missing_name_is_noop() {
    let left = RuleManager::delete_custom_rule(vec![rule("a", "p", "m", 0)], &"zzz".to_string());
    assert_eq!(left.len(), 1);
}

#[test]
fn portable_install_detected_by_temp_path() {
    assert!(ConfigLoader::use_app_data_dir(
        &b"C:\\Users\\u\\AppData\\Local\\Temp\\app".to_vec()
    ));
    assert!(ConfigLoader::use_app_data_dir(&b"/tmp/TEMP/run".to_vec()));
    assert!(!ConfigLoader::use_app_data_dir(&b"C:\\Program Files\\app".to_vec()));
    assert!(!ConfigLoader::use_app_data_dir(&b"/opt/app".to_vec()));
    assert!(!ConfigLoader::use_app_data_dir(&b"tem".to_vec()));
}
