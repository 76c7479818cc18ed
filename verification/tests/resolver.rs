use shard::config::v1::{ShardConfig, ShardMatrix, ShardTemplate};
use shard::instance::resolver::{
    expand_inputs, interpolate_string, resolve_instances, InstanceResolverError, Span,
};
use shard::instance::ResolvedInstance;
use shard::sorted_map::SortedMap;

/// Builds the `with` map of a matrix from a list of `(input, values)` pairs.
fn axes(pairs: &[(&str, &[&str])]) -> SortedMap<Vec<String>> {
    let mut map = SortedMap::new();
    for (key, values) in pairs {
        map.insert(key.to_string(), values.iter().map(|v| v.to_string()).collect());
    }
    map
}

/// Builds the inputs of a single combination from a list of `(input, value)` pairs.
fn inputs(pairs: &[(&str, &str)]) -> SortedMap<String> {
    let mut map = SortedMap::new();
    for (key, value) in pairs {
        map.insert(key.to_string(), value.to_string());
    }
    map
}

/// Renders combinations as `"key=value, key=value"` strings.
fn describe(combinations: &[SortedMap<String>]) -> Vec<String> {
    combinations
        .iter()
        .map(|combination| {
            (0..combination.len())
                .map(|i| format!("{}={}", combination.key_at(i), combination.value_at(i)))
                .collect::<Vec<_>>()
                .join(", ")
        })
        .collect()
}

/// A template with the given name and nothing else.
fn template(name: &str) -> ShardTemplate {
    ShardTemplate { name: name.to_string(), loader: None, mods: SortedMap::new(), jvm_args: vec![] }
}

/// A version 1 configuration with the given templates and matrixes.
fn config(templates: Vec<(&str, ShardTemplate)>, matrixes: Vec<ShardMatrix>) -> ShardConfig {
    let mut map = SortedMap::new();
    for (name, t) in templates {
        map.insert(name.to_string(), t);
    }
    ShardConfig { version: 1, templates: map, matrixes }
}

fn matrix(uses: &str, with: &[(&str, &[&str])]) -> ShardMatrix {
    ShardMatrix { uses: uses.to_string(), with: axes(with) }
}

/// Collects the names of the provided instances.
fn names(instances: &[ResolvedInstance]) -> Vec<String> {
    instances.iter().map(|instance| instance.name.clone()).collect()
}

#[test]
fn expands_every_combination_of_two_axes() {
    let combinations =
        expand_inputs(&axes(&[("minecraft", &["26.1", "26.2"]), ("my-env", &["abc", "def"])]));

    assert_eq!(describe(&combinations), [
        "minecraft=26.1, my-env=abc",
        "minecraft=26.1, my-env=def",
        "minecraft=26.2, my-env=abc",
        "minecraft=26.2, my-env=def",
    ]);
}

#[test]
fn expands_no_axes_into_a_single_empty_combination() {
    let combinations = expand_inputs(&axes(&[]));

    assert_eq!(describe(&combinations), [""]);
}

#[test]
fn expands_an_empty_axis_into_no_combinations() {
    let combinations = expand_inputs(&axes(&[("minecraft", &[])]));

    assert_eq!(describe(&combinations), Vec::<String>::new());
}

#[test]
fn expands_axes_in_key_order_whatever_the_insertion_order() {
    let combinations = expand_inputs(&axes(&[("b", &["1", "2"]), ("a", &["x"])]));

    assert_eq!(describe(&combinations), ["a=x, b=1", "a=x, b=2"]);
}

#[test]
fn expands_three_axes_into_their_product() {
    let combinations =
        expand_inputs(&axes(&[("a", &["1", "2"]), ("b", &["x", "y", "z"]), ("c", &["q"])]));

    assert_eq!(combinations.len(), 6);
    assert_eq!(describe(&combinations)[5], "a=2, b=z, c=q");
}

#[test]
fn interpolates_placeholders_from_inputs() {
    let name = interpolate_string("{minecraft}-{my-env}", &inputs(&[("minecraft", "26.1"), ("my-env", "abc")]))
        .expect("placeholders should resolve");

    assert_eq!(name, "26.1-abc");
}

#[test]
fn interpolates_text_surrounding_placeholders() {
    let name = interpolate_string("prism-{minecraft}-instance", &inputs(&[("minecraft", "26.1")]))
        .expect("placeholders should resolve");

    assert_eq!(name, "prism-26.1-instance");
}

#[test]
fn reports_every_unknown_placeholder_at_once() {
    let error = interpolate_string("{minecraft}-{typo}-{oops}", &inputs(&[("minecraft", "26.1")]))
        .expect_err("unknown placeholders should fail to interpolate");

    let InstanceResolverError::UnknownPlaceholder { unknown, available, .. } = &error else {
        panic!("expected an unknown placeholder error, got {error:?}");
    };

    assert_eq!(unknown, &[Span { offset: 12, length: 6 }, Span { offset: 19, length: 6 }]);
    assert_eq!(available, "minecraft");
}

#[test]
fn reports_an_unterminated_placeholder() {
    let error = interpolate_string("prism-{minecraft", &inputs(&[("minecraft", "26.1")]))
        .expect_err("an unclosed brace should fail to interpolate");

    let InstanceResolverError::UnterminatedPlaceholder { placeholder, .. } = &error else {
        panic!("expected an unterminated placeholder error, got {error:?}");
    };

    assert_eq!(placeholder, &Span { offset: 6, length: 1 });
}

#[test]
fn leaves_text_without_placeholders_unchanged() {
    let name = interpolate_string("plain-name", &inputs(&[])).expect("plain text should resolve");

    assert_eq!(name, "plain-name");
}

#[test]
fn measures_placeholder_spans_in_bytes() {
    // 'é' takes two bytes, so the placeholder starts at byte 3 although it is the third character.
    let error = interpolate_string("é-{x}", &inputs(&[("a", "1"), ("b", "2")]))
        .expect_err("an unknown placeholder should fail");

    let InstanceResolverError::UnknownPlaceholder { unknown, available, template } = &error else {
        panic!("expected an unknown placeholder error, got {error:?}");
    };
    assert_eq!(unknown, &[Span { offset: 3, length: 3 }]);
    assert_eq!(available, "a, b");
    assert_eq!(template, "é-{x}");
}

#[test]
fn reports_an_unterminated_placeholder_after_an_unknown_one() {
    let error = interpolate_string("{x}-{y", &inputs(&[]))
        .expect_err("an unclosed brace should fail to interpolate");

    let InstanceResolverError::UnterminatedPlaceholder { placeholder, template } = &error else {
        panic!("expected an unterminated placeholder error, got {error:?}");
    };
    assert_eq!(placeholder, &Span { offset: 4, length: 1 });
    assert_eq!(template, "{x}-{y");
}

#[test]
fn fails_when_a_matrix_name_uses_an_unknown_placeholder() {
    let config = config(
        vec![("fabric", template("{minecraft}-{typo}"))],
        vec![matrix("fabric", &[("minecraft", &["26.1"])])],
    );

    let error = resolve_instances(&config).expect_err("an unknown placeholder should fail to resolve");

    assert_eq!(error.to_string(), "unknown placeholder found in template string");
}

#[test]
fn resolves_one_instance_per_combination() {
    let config = config(
        vec![("fabric", template("{minecraft}-{my-env}"))],
        vec![matrix("fabric", &[("minecraft", &["26.1", "26.2"]), ("my-env", &["abc", "def"])])],
    );

    let instances = resolve_instances(&config).expect("instances should resolve");

    assert_eq!(names(&instances), ["26.1-abc", "26.1-def", "26.2-abc", "26.2-def"]);
}

#[test]
fn records_the_template_and_inputs_that_produced_an_instance() {
    let config = config(
        vec![("fabric", template("{minecraft}"))],
        vec![matrix("fabric", &[("minecraft", &["26.1"])])],
    );

    let instances = resolve_instances(&config).expect("instances should resolve");
    let [instance] = &instances[..] else {
        panic!("expected exactly one instance, got {}", instances.len());
    };

    assert_eq!(instance.source.template, "fabric");
    assert_eq!(instance.source.inputs, inputs(&[("minecraft", "26.1")]));
}

#[test]
fn fails_when_a_matrix_uses_an_undefined_template() {
    let config = config(vec![], vec![matrix("fabric", &[])]);

    let error = resolve_instances(&config).expect_err("an undefined template should fail to resolve");

    assert_eq!(error.to_string(), "undefined template 'fabric'");
}

#[test]
fn generates_duplicate_names_when_the_name_omits_an_axis() {
    let config = config(
        vec![("fabric", template("{minecraft}"))],
        vec![matrix("fabric", &[("minecraft", &["26.1"]), ("my-env", &["abc", "def"])])],
    );

    let instances = resolve_instances(&config).expect("instances should resolve");

    assert_eq!(names(&instances), ["26.1", "26.1"]);
}

#[test]
fn fails_when_a_matrix_has_no_minecraft_input() {
    let config = config(
        vec![("fabric", template("{my-env}"))],
        vec![matrix("fabric", &[("my-env", &["abc"])])],
    );

    let error = resolve_instances(&config).expect_err("a matrix without minecraft should fail");

    assert_eq!(error.to_string(), "matrix using template 'fabric' does not define any minecraft versions");
}

#[test]
fn describes_an_unterminated_placeholder() {
    let error = interpolate_string("{a", &inputs(&[])).expect_err("should fail");

    assert_eq!(error.to_string(), "unterminated placeholder in template string");
}

#[test]
fn derives_ids_from_the_template_and_sanitised_input_values() {
    let config = config(
        vec![("fabric", template("{minecraft}"))],
        vec![matrix("fabric", &[("minecraft", &["26.1"]), ("my-env", &["a b", "ü-x"])])],
    );

    let instances = resolve_instances(&config).expect("instances should resolve");

    let ids: Vec<&str> = instances.iter().map(|i| i.id.as_str()).collect();
    assert_eq!(ids, ["fabric-26_1-a_b", "fabric-26_1-ü_x"]);
    assert_eq!(instances[0].minecraft_version, "26.1");
}

#[test]
fn resolves_matrixes_in_order_and_keeps_the_template_loader_and_mods() {
    let mut fabric = template("{minecraft}");
    fabric.loader = Some(shard::config::loader::Loader::parse("fabric@0.19.3").unwrap());
    fabric.mods.insert("modrinth".to_string(), vec!["sodium".to_string()]);
    let config = config(
        vec![("fabric", fabric), ("vanilla", template("v{minecraft}"))],
        vec![
            matrix("vanilla", &[("minecraft", &["1"])]),
            matrix("fabric", &[("minecraft", &["2", "3"])]),
        ],
    );

    let instances = resolve_instances(&config).expect("instances should resolve");

    assert_eq!(names(&instances), ["v1", "2", "3"]);
    assert_eq!(instances[0].loader, None);
    assert_eq!(instances[1].loader, fabric_loader());
    assert_eq!(instances[2].mods.get("modrinth"), Some(&vec!["sodium".to_string()]));
}

fn fabric_loader() -> Option<shard::config::loader::Loader> {
    Some(shard::config::loader::Loader::parse("fabric@0.19.3").unwrap())
}

#[test]
fn joins_the_input_values_of_an_id_with_hyphens() {
    let config = config(
        vec![("fabric", template("{minecraft}"))],
        vec![matrix("fabric", &[("minecraft", &["261"]), ("my-env", &["abc"])])],
    );

    let instances = resolve_instances(&config).expect("instances should resolve");

    assert_eq!(instances[0].id, "fabric-261-abc");
}

#[test]
fn expands_sorted_values_into_sorted_distinct_combinations() {
    let combinations = expand_inputs(&axes(&[("a", &["1", "2", "3"]), ("b", &["x", "y"])]));
    let described = describe(&combinations);

    let mut sorted = described.clone();
    sorted.sort();
    sorted.dedup();
    assert_eq!(described, sorted);
    assert_eq!(combinations[4].get("a"), Some(&"3".to_string()));
    assert_eq!(combinations[4].get("b"), Some(&"x".to_string()));
}

#[test]
fn fails_with_the_first_matrix_that_fails() {
    let config = config(
        vec![("fabric", template("{minecraft}"))],
        vec![
            matrix("fabric", &[("minecraft", &["1"])]),
            matrix("missing", &[("minecraft", &["1"])]),
            matrix("fabric", &[("other", &["1"])]),
        ],
    );

    let error = resolve_instances(&config).expect_err("the second matrix should fail");

    assert_eq!(error.to_string(), "undefined template 'missing'");
}

#[test]
fn rejects_two_matrixes_that_give_the_same_instance() {
    let config = config(
        vec![("fabric", template("{minecraft}"))],
        vec![matrix("fabric", &[("minecraft", &["26.1"])]), matrix("fabric", &[("minecraft", &["26.1"])])],
    );

    let error = resolve_instances(&config).expect_err("two identical matrixes should fail");

    assert_eq!(error.to_string(), "duplicate instance id 'fabric-26_1'");
}

#[test]
fn rejects_values_that_sanitise_to_the_same_id() {
    let config = config(
        vec![("fabric", template("{minecraft}"))],
        vec![matrix("fabric", &[("minecraft", &["26.1", "26_1"])])],
    );

    let error = resolve_instances(&config).expect_err("colliding IDs should fail");

    let InstanceResolverError::DuplicateInstanceId(id) = &error else {
        panic!("expected a duplicate ID error, got {error:?}");
    };
    assert_eq!(id, "fabric-26_1");
}
