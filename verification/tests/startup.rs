use embedded_debugger::debugger::registry::init_custom_registry;
use embedded_debugger::debugger::registry::is_chip_file;
use embedded_debugger::debugger::registry::load_families;
use embedded_debugger::debugger::registry::outcome_of;
use embedded_debugger::debugger::registry::ChipDirectory;
use embedded_debugger::debugger::registry::DocumentOutcome;
use embedded_debugger::startup::choose_chip_dir;
use embedded_debugger::startup::choose_log_file;
use embedded_debugger::text::contains;
use embedded_debugger::text::contains_ignore_ascii_case;
use embedded_debugger::text::decimal;
use embedded_debugger::text::eq_ignore_ascii_case;
use embedded_debugger::text::hex;
use embedded_debugger::text::parse_usize;
use embedded_debugger::text::same_text;
use embedded_debugger::text::split;
use probe_rs::config::Registry;

fn family(name: &str) -> Result<String, String> {
    Ok(format!("name: {}\nvariants: []\n", name))
}

fn family_names(registry: &Registry) -> Vec<String> {
    registry.families().iter().map(|f| f.name.clone()).collect()
}

#[test]
fn test_families_are_loaded_in_order() {
    let mut registry = Registry::new();
    let documents = vec![
        family("Alpha"),
        Err("permission denied".to_string()),
        Ok("name: [".to_string()),
        family("Beta"),
    ];
    let report = load_families(&mut registry, &documents);
    assert_eq!(report.loaded_families, 2);
    assert_eq!(report.outcomes.len(), 4);
    assert!(matches!(&report.outcomes[0], DocumentOutcome::Loaded(n) if n == "Alpha"));
    assert!(
        matches!(&report.outcomes[1], DocumentOutcome::Unreadable(e) if e == "permission denied")
    );
    assert!(matches!(&report.outcomes[2], DocumentOutcome::Rejected(_)));
    assert!(matches!(&report.outcomes[3], DocumentOutcome::Loaded(n) if n == "Beta"));
    assert_eq!(family_names(&registry), vec!["Alpha", "Beta"]);
}

#[test]
fn test_a_family_takes_the_place_of_its_namesake() {
    let mut registry = Registry::new();
    let documents = vec![family("Alpha"), family("Beta"), family("ALPHA")];
    let report = load_families(&mut registry, &documents);
    assert_eq!(report.loaded_families, 3);
    assert_eq!(family_names(&registry), vec!["Beta", "ALPHA"]);
}

fn family_with_chip(name: &str, chip: &str) -> Result<String, String> {
    Ok(format!(
        "name: {}\nvariants:\n  - name: {}\n    cores:\n      - name: main\n        \
         type: armv7em\n        core_access_options: !Arm\n          ap: !v1 0\n    \
         memory_map:\n      - !Ram\n        range:\n          start: 0x20000000\n          \
         end: 0x20001000\n        cores: [main]\n    flash_algorithms: []\n",
        name, chip
    ))
}

#[test]
fn test_the_later_definition_of_a_family_wins() {
    let mut registry = Registry::new();
    let documents =
        vec![family_with_chip("Alpha", "A1"), family("Beta"), family_with_chip("alpha", "A2")];
    let report = load_families(&mut registry, &documents);
    let rejected: Vec<String> = report
        .outcomes
        .iter()
        .filter(|o| !matches!(o, DocumentOutcome::Loaded(_)))
        .map(|o| format!("{:?}", o))
        .collect();
    assert_eq!(rejected, Vec::<String>::new());
    assert_eq!(family_names(&registry), vec!["Beta", "alpha"]);
    let chips: Vec<String> =
        registry.families()[1].variants.iter().map(|c| c.name.clone()).collect();
    assert_eq!(chips, vec!["A2"]);
}

/// A family with one chip, which names its default image format.
fn family_with_format(name: &str, format: &str) -> Result<String, String> {
    family_with_chip(name, "A1")
        .map(|text| format!("{}    default_binary_format: {}\n", text, format))
}

#[test]
fn test_families_that_name_image_formats() {
    let mut registry = Registry::new();
    let known = ["elf", "bin", "binary", "hex", "ihex", "intelhex", "uf2"];
    let mut documents: Vec<Result<String, String>> =
        known.iter().map(|format| family_with_format(format, format)).collect();
    documents.push(family_with_format("Alpha", "nonesuch"));
    documents.push(family("Beta"));
    let report = load_families(&mut registry, &documents);
    assert_eq!(report.loaded_families, 8);
    assert!(matches!(&report.outcomes[7], DocumentOutcome::Rejected(e)
        if e == "Invalid chip family definition (Alpha): Unknown image format nonesuch"));
    let mut names: Vec<&str> = known.to_vec();
    names.push("Beta");
    assert_eq!(family_names(&registry), names);
}

#[test]
fn test_documents_without_a_valid_family_are_passed_over() {
    let mut registry = Registry::new();
    let twice = "name: Alpha\nvariants:\n  - &chip\n    name: A1\n    cores: []\n    \
                 memory_map: []\n  - *chip\n";
    let documents = vec![
        family("Alpha"),
        Ok("name: [".to_string()),
        Ok(twice.to_string()),
        Ok("variants: []\n".to_string()),
        family("Beta"),
    ];
    let report = load_families(&mut registry, &documents);
    let shown: Vec<String> = report.outcomes.iter().map(|o| format!("{:?}", o)).collect();
    let unreadable = "Rejected(\"An error occurred while deserializing a YAML target description \
                      file.\")";
    assert_eq!(
        shown,
        vec![
            "Loaded(\"Alpha\")",
            unreadable,
            "Rejected(\"Invalid chip family definition (Alpha): Target A1 appears multiple times \
             in Alpha\")",
            unreadable,
            "Loaded(\"Beta\")",
        ]
    );
    assert_eq!(family_names(&registry), vec!["Alpha", "Beta"]);
}

#[test]
fn test_outcomes_of_added_families() {
    assert!(matches!(outcome_of(Ok("A".to_string())), DocumentOutcome::Loaded(n) if n == "A"));
    assert!(matches!(outcome_of(Err("no".to_string())), DocumentOutcome::Rejected(e) if e == "no"));
}

#[test]
fn test_a_variant_without_cores_is_rejected() {
    let mut registry = Registry::new();
    let yaml = "name: Alpha\nvariants:\n  - name: A1\n    cores: []\n";
    let report = load_families(&mut registry, &vec![Ok(yaml.to_string())]);
    assert_eq!(report.loaded_families, 0);
    assert!(family_names(&registry).is_empty());
}

#[test]
fn test_registry_directories() {
    let mut registry = Registry::new();
    let report = init_custom_registry(&mut registry, ChipDirectory::Missing).unwrap();
    assert_eq!(report.loaded_families, 0);
    assert!(report.outcomes.is_empty());
    let refused =
        init_custom_registry(&mut registry, ChipDirectory::Unreadable("not allowed".to_string()));
    assert_eq!(refused.unwrap_err(), "Failed to read chip directory: not allowed");
    assert!(family_names(&registry).is_empty());
    let documents = ChipDirectory::Documents(vec![family("Gamma")]);
    assert_eq!(init_custom_registry(&mut registry, documents).unwrap().loaded_families, 1);
    assert_eq!(family_names(&registry), vec!["Gamma"]);
}

#[test]
fn test_chip_files() {
    assert!(is_chip_file(Some("yaml")));
    assert!(!is_chip_file(Some("yml")));
    assert!(!is_chip_file(Some("YAML")));
    assert!(!is_chip_file(None));
}

#[test]
fn test_log_files() {
    assert_eq!(choose_log_file(false, None, Some("exe"), "bare"), None);
    assert_eq!(choose_log_file(false, Some("named"), Some("exe"), "bare"), Some("named"));
    assert_eq!(choose_log_file(true, Some("named"), Some("exe"), "bare"), Some("named"));
    assert_eq!(choose_log_file(true, None, Some("exe"), "bare"), Some("exe"));
    assert_eq!(choose_log_file(true, None, None, "bare"), Some("bare"));
}

#[test]
fn test_chip_directories() {
    assert_eq!(choose_chip_dir(true, "chips", Some("exe/chips")), "exe/chips");
    assert_eq!(choose_chip_dir(true, "chips", None), "chips");
    assert_eq!(choose_chip_dir(false, "/chips", Some("exe/chips")), "/chips");
}

#[test]
fn test_text_comparisons() {
    assert!(same_text("abc", "abc"));
    assert!(!same_text("abc", "abC"));
    assert!(eq_ignore_ascii_case("aBc", "AbC"));
    assert!(!eq_ignore_ascii_case("ä", "Ä"));
    assert!(contains("hello", "ell"));
    assert!(contains("hello", ""));
    assert!(!contains("hello", "elo"));
    assert!(!contains("he", "hello"));
    assert!(contains_ignore_ascii_case("SeggerRtt", "RRT"));
}

#[test]
fn test_splitting() {
    assert_eq!(split("a.b.c", '.'), vec!["a", "b", "c"]);
    assert_eq!(split("", '.'), vec![""]);
    assert_eq!(split(".a.", '.'), vec!["", "a", ""]);
}

#[test]
fn test_numbers_as_text() {
    assert_eq!(decimal(0), "0");
    assert_eq!(decimal(1024), "1024");
    assert_eq!(decimal(u64::MAX), "18446744073709551615");
    assert_eq!(hex(0, 0), "0");
    assert_eq!(hex(0xAB, 8), "000000AB");
    assert_eq!(hex(0x1_2345_6789, 8), "123456789");
    assert_eq!(hex(5, 2), "05");
}

#[test]
fn test_numbers_from_text() {
    let parse = |s: &str| parse_usize(&s.chars().collect::<Vec<char>>());
    assert_eq!(parse("0"), Some(0));
    assert_eq!(parse("+17"), Some(17));
    assert_eq!(parse("007"), Some(7));
    assert_eq!(parse(&usize::MAX.to_string()), Some(usize::MAX));
    assert_eq!(parse(&format!("{}0", usize::MAX)), None);
    for bad in ["", "+", "-1", "1x", " 1", "++1"] {
        assert_eq!(parse(bad), bad.parse::<usize>().ok());
        assert_eq!(parse(bad), None);
    }
}
