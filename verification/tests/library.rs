use std::path::PathBuf;

use shard::error::ini::IniError;
use shard::error::yaml_serde::YamlSerdeError;
use shard::error::LabeledSpan;
use shard::manifest::ShardManifest;
use shard::prism::{
    check_prism_data_directory, default_data_directory_components, is_valid_prism_data_directory, Platform,
};
use shard::sorted_map::SortedMap;
use shard::text::{chars_less, chars_of, join_strings, same_text, string_from_chars, utf8_len_of};

#[test]
fn a_sorted_map_keeps_its_keys_in_order() {
    let mut map = SortedMap::new();
    map.insert("b".to_string(), 2);
    map.insert("c".to_string(), 3);
    map.insert("a".to_string(), 1);

    assert_eq!(map.key_list(), ["a", "b", "c"]);
    assert_eq!(map.len(), 3);
    assert_eq!(*map.value_at(0), 1);
    assert_eq!(map.get("c"), Some(&3));
    assert_eq!(map.get("d"), None);
}

#[test]
fn inserting_an_existing_key_replaces_its_value_in_place() {
    let mut map = SortedMap::new();
    map.insert("a".to_string(), 1);
    map.insert("b".to_string(), 2);
    map.insert("a".to_string(), 10);

    assert_eq!(map.len(), 2);
    assert_eq!(map.get("a"), Some(&10));
    assert_eq!(map.get("b"), Some(&2));
    assert!(map.contains_key("b"));
    assert!(!map.contains_key("c"));
    assert!(!map.is_empty());
    assert!(SortedMap::<u8>::new().is_empty());
}

#[test]
fn a_sorted_map_orders_keys_by_character() {
    let mut map = SortedMap::new();
    map.insert("é".to_string(), 1);
    map.insert("z".to_string(), 2);
    map.insert("Z".to_string(), 3);
    map.insert("".to_string(), 4);
    map.insert("za".to_string(), 5);

    assert_eq!(map.key_list(), ["", "Z", "z", "za", "é"]);
    assert_eq!(map.get_by_chars(&['z', 'a']), Some(&5));
}

#[test]
fn a_duplicate_equals_its_original() {
    let mut map = SortedMap::new();
    map.insert("k".to_string(), vec!["v".to_string()]);
    let copy = map.duplicate();

    assert_eq!(copy, map);
}

#[test]
fn text_helpers_work_on_characters() {
    assert_eq!(chars_of("aé"), vec!['a', 'é']);
    assert_eq!(string_from_chars(&['x', 'ü']), "xü");
    assert!(same_text("abc", "abc"));
    assert!(!same_text("abc", "abd"));
    assert!(chars_less(&['a'], &['a', 'b']));
    assert!(!chars_less(&['b'], &['a', 'b']));
    assert_eq!(utf8_len_of("aé€😀"), 1 + 2 + 3 + 4);
    assert_eq!(join_strings(&vec!["a".to_string(), "b".to_string()], ", "), "a, b");
    assert_eq!(join_strings(&vec![], ", "), "");
}

#[test]
fn an_ini_error_points_at_one_byte() {
    let error = IniError::from("[General]\n=orphan\n".to_string(), 2, 1, "missing key".to_string());

    assert_eq!(error.offset, 10);
    assert_eq!(error.to_string(), "malformed ini");
    let labels = error.labels().unwrap();
    assert_eq!(labels, vec![LabeledSpan::new(Some("missing key".to_string()), 10, 1)]);
}

#[test]
fn a_yaml_error_points_at_the_reported_location() {
    let error = YamlSerdeError::from("a: 1\nb: [\n".to_string(), Some((2, 4)), "bad".to_string());

    assert_eq!(error.source_offset, 8);
    assert_eq!(error.cause, "bad");
    assert_eq!(error.to_string(), "malformed yaml");

    let unlocated = YamlSerdeError::from("a: 1\n".to_string(), None, "bad".to_string());
    assert_eq!(unlocated.source_offset, 0);
}

#[test]
fn prism_data_lives_under_the_home_directory() {
    assert_eq!(default_data_directory_components(Platform::Windows), ["AppData", "Roaming", "PrismLauncher"]);
    assert_eq!(
        default_data_directory_components(Platform::MacOs),
        ["Library", "Application Support", "PrismLauncher"]
    );
    assert_eq!(
        default_data_directory_components(Platform::Other),
        [".var", "app", "org.prismlauncher.PrismLauncher", "data", "PrismLauncher"]
    );
}

#[test]
fn a_data_directory_must_be_a_directory_with_a_config_file() {
    assert!(is_valid_prism_data_directory(true, true));
    assert!(!is_valid_prism_data_directory(true, false));
    assert!(!is_valid_prism_data_directory(false, true));

    let path = PathBuf::from("/home/user/prism");
    assert_eq!(check_prism_data_directory(path.clone(), true, true).unwrap(), path);
    let error = check_prism_data_directory(path.clone(), false, false).unwrap_err();
    assert_eq!(error.0, path);
    assert_eq!(
        error.to_string(),
        "the directory at '/home/user/prism' either does not exist, or is not a valid data directory for prism launcher"
    );
}

#[test]
fn a_default_manifest_manages_nothing() {
    assert!(ShardManifest::default().instance_ids.is_empty());
}
