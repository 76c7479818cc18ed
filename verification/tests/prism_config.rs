use shard::prism::config::{InstanceConfiguration, LineSeparator, GENERAL_SECTION};

/// Joins lines using the system's line separator, the one that configurations are written with.
fn render(lines: &[&str]) -> String {
    let separator = ini::LineSeparator::SystemDefault.as_str();
    lines.join(separator) + separator
}

/// Parses a configuration from the provided lines, panicking if it is malformed.
fn configuration(lines: &[&str]) -> InstanceConfiguration {
    InstanceConfiguration::from_str(&render(lines)).expect("test configuration should be valid")
}

#[test]
fn reads_a_key_from_the_general_section() {
    let configuration = configuration(&["[General]", "name=Fabric 1.21", "iconKey=fabric"]);

    assert_eq!(configuration.get(GENERAL_SECTION, "name"), Some("Fabric 1.21"));
    assert_eq!(configuration.get(GENERAL_SECTION, "iconKey"), Some("fabric"));
    assert_eq!(configuration.get(GENERAL_SECTION, "JavaPath"), None);
}

#[test]
fn handles_windows_paths() {
    let configuration = configuration(&[
        "[General]",
        r"JavaPath=C:\Program Files\Java\jdk-21\bin\javaw.exe",
        r#"notes="quoted""#,
    ]);

    assert_eq!(
        configuration.get(GENERAL_SECTION, "JavaPath"),
        Some(r"C:\Program Files\Java\jdk-21\bin\javaw.exe")
    );
    assert_eq!(configuration.get(GENERAL_SECTION, "notes"), Some(r#""quoted""#));
}

#[test]
fn replaces_an_existing_key_in_place() {
    let mut configuration = configuration(&["[General]", "name=Fabric 1.21", "iconKey=fabric"]);

    configuration.set(GENERAL_SECTION, "name", "Fabric 1.22");

    assert_eq!(configuration.to_string(), render(&["[General]", "name=Fabric 1.22", "iconKey=fabric"]));
}

#[test]
fn appends_a_key_that_was_not_already_set() {
    let mut configuration = configuration(&["[General]", "name=Fabric 1.21"]);

    configuration.set(GENERAL_SECTION, "JvmArgs", "-Xmx4096m");

    assert_eq!(
        configuration.to_string(),
        render(&["[General]", "name=Fabric 1.21", "JvmArgs=-Xmx4096m"])
    );
}

#[test]
fn creates_a_section_that_does_not_exist_yet() {
    let mut configuration = configuration(&["[General]", "name=Fabric 1.21"]);

    configuration.set("Foo", "Bar", "baz");

    assert_eq!(
        configuration.to_string(),
        render(&["[General]", "name=Fabric 1.21", "", "[Foo]", "Bar=baz"])
    );
}

#[test]
fn removes_a_key() {
    let mut configuration = configuration(&["[General]", "name=Fabric 1.21", "JvmArgs=-Xmx4096m"]);

    assert_eq!(configuration.remove(GENERAL_SECTION, "JvmArgs"), Some("-Xmx4096m".to_string()));
    assert_eq!(configuration.remove(GENERAL_SECTION, "JvmArgs"), None);
    assert_eq!(configuration.to_string(), render(&["[General]", "name=Fabric 1.21"]));
}

#[test]
fn reports_the_location_of_malformed_input() {
    let contents = render(&["[General]", "=orphan"]);

    let error = InstanceConfiguration::from_str(&contents)
        .expect_err("a value without a key should fail to parse");

    assert_eq!(error.to_string(), "malformed ini");

    let labels: Vec<_> = error.labels().expect("the error should be labelled");
    let [label] = &labels[..] else {
        panic!("expected exactly one label, got {}", labels.len());
    };

    assert_eq!(label.label(), Some("missing key"));
    assert_eq!(label.offset(), render(&["[General]"]).len() + 1);
    assert_eq!(label.len(), 1);
}

#[test]
fn reads_what_was_set_and_keeps_other_keys() {
    let mut configuration = configuration(&["[General]", "name=Fabric 1.21", "iconKey=fabric"]);

    configuration.set(GENERAL_SECTION, "iconKey", "quilt");
    configuration.set("Other", "name", "x");

    assert_eq!(configuration.get(GENERAL_SECTION, "iconKey"), Some("quilt"));
    assert_eq!(configuration.get(GENERAL_SECTION, "name"), Some("Fabric 1.21"));
    assert_eq!(configuration.get("Other", "name"), Some("x"));
    assert_eq!(configuration.get("Missing", "name"), None);
}

#[test]
fn setting_the_same_value_twice_changes_nothing_more() {
    let mut once = configuration(&["[General]", "name=Fabric 1.21"]);
    let mut twice = configuration(&["[General]", "name=Fabric 1.21"]);

    once.set(GENERAL_SECTION, "JvmArgs", "-Xmx2G");
    twice.set(GENERAL_SECTION, "JvmArgs", "-Xmx2G");
    twice.set(GENERAL_SECTION, "JvmArgs", "-Xmx2G");

    assert_eq!(once.to_string(), twice.to_string());
}

#[test]
fn removing_from_a_missing_section_returns_nothing() {
    let mut configuration = configuration(&["[General]", "name=Fabric 1.21"]);

    assert_eq!(configuration.remove("Missing", "name"), None);
    assert_eq!(configuration.to_string(), render(&["[General]", "name=Fabric 1.21"]));
}

#[test]
fn a_new_configuration_is_empty() {
    let configuration = InstanceConfiguration::new();

    assert_eq!(configuration.get(GENERAL_SECTION, "name"), None);
    assert_eq!(configuration.to_string(), "");
    assert_eq!(InstanceConfiguration::default().to_string(), "");
}

#[test]
fn a_clone_renders_as_its_original() {
    let configuration = configuration(&["[General]", "name=Fabric 1.21", "", "[Foo]", "Bar=baz"]);
    let copy = configuration.clone();

    assert_eq!(copy.to_string(), configuration.to_string());
    assert_eq!(copy.to_string(), render(&["[General]", "name=Fabric 1.21", "", "[Foo]", "Bar=baz"]));
    assert_eq!(copy.get("Foo", "Bar"), Some("baz"));
}

#[test]
fn renders_with_a_chosen_line_separator() {
    let configuration = configuration(&["[General]", "name=Fabric 1.21", "", "[Foo]", "Bar=baz"]);

    assert_eq!(configuration.to_string_with(LineSeparator::Lf), "[General]\nname=Fabric 1.21\n\n[Foo]\nBar=baz\n");
    assert_eq!(
        configuration.to_string_with(LineSeparator::CrLf),
        "[General]\r\nname=Fabric 1.21\r\n\r\n[Foo]\r\nBar=baz\r\n"
    );
    assert_eq!(configuration.to_string_with(LineSeparator::System), configuration.to_string());
}

#[test]
fn a_later_set_wins() {
    let mut twice = configuration(&["[General]", "name=Fabric 1.21"]);
    let mut once = twice.clone();

    twice.set("Foo", "Bar", "first");
    twice.set("Foo", "Bar", "second");
    once.set("Foo", "Bar", "second");

    assert_eq!(twice.to_string_with(LineSeparator::Lf), once.to_string_with(LineSeparator::Lf));
    assert_eq!(twice.get("Foo", "Bar"), Some("second"));
}

#[test]
fn removing_an_absent_key_changes_nothing() {
    let mut configuration = configuration(&["[General]", "name=Fabric 1.21"]);
    let before = configuration.to_string_with(LineSeparator::Lf);

    assert_eq!(configuration.remove(GENERAL_SECTION, "JvmArgs"), None);
    assert_eq!(configuration.to_string_with(LineSeparator::Lf), before);
}

#[test]
fn remove_undoes_setting_a_new_key() {
    let mut configuration = configuration(&["[General]", "name=Fabric 1.21"]);
    let before = configuration.to_string_with(LineSeparator::Lf);

    configuration.set(GENERAL_SECTION, "JvmArgs", "-Xmx2G");
    assert_eq!(configuration.remove(GENERAL_SECTION, "JvmArgs"), Some("-Xmx2G".to_string()));
    assert_eq!(configuration.to_string_with(LineSeparator::Lf), before);

    configuration.set("Foo", "Bar", "baz");
    configuration.remove("Foo", "Bar");
    assert_eq!(configuration.to_string_with(LineSeparator::Lf), "[General]\nname=Fabric 1.21\n[Foo]\n");
}
