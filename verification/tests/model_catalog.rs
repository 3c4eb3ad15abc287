use dashboard_metrics::catalog::{
    apply_estate_filter, next_catalog, parse_estates, CatalogFetch, CatalogProblem,
    CatalogUpdate, ModelTarget,
};

fn target(estate: &str) -> ModelTarget {
    ModelTarget {
        slot_id: format!("{estate}-slot"),
        hardware: "test".into(),
        estate: estate.into(),
        models: vec![],
        state: "up".into(),
        up: true,
        aliases: vec![],
        api_base: "http://example.invalid/v1".into(),
    }
}

fn slot(slot_id: &str, estate: &str, hardware: &str) -> ModelTarget {
    ModelTarget {
        slot_id: slot_id.into(),
        hardware: hardware.into(),
        estate: estate.into(),
        models: vec![],
        state: "up".into(),
        up: true,
        aliases: vec![],
        api_base: "http://example.invalid/v1".into(),
    }
}

fn slot_ids(targets: &[ModelTarget]) -> Vec<&str> {
    targets.iter().map(|t| t.slot_id.as_str()).collect()
}

#[test]
fn parses_a_comma_separated_estate_list() {
    assert_eq!(parse_estates("spark"), ["spark"]);
    assert_eq!(parse_estates("spark, coredump"), ["spark", "coredump"]);
    assert_eq!(parse_estates("Spark,CLOUD"), ["spark", "cloud"]);
}

#[test]
fn an_empty_estate_list_means_no_filtering() {
    assert!(parse_estates("").is_empty());
    assert!(parse_estates("  ,  ").is_empty());

    let mut targets = vec![target("spark"), target("blackwell")];
    apply_estate_filter(&mut targets, &[]);
    assert_eq!(targets.len(), 2, "empty allowlist must not drop anything");
}

#[test]
fn filters_out_estates_not_on_the_allowlist() {
    let mut targets = vec![target("spark"), target("blackwell"), target("coredump")];
    apply_estate_filter(&mut targets, &parse_estates("spark"));
    assert_eq!(
        targets
            .iter()
            .map(|t| t.estate.as_str())
            .collect::<Vec<_>>(),
        ["spark"]
    );
}

#[test]
fn estate_matching_ignores_case() {
    let mut targets = vec![target("Spark"), target("blackwell")];
    apply_estate_filter(&mut targets, &parse_estates("spark"));
    assert_eq!(targets.len(), 1);
}

#[test]
fn an_allowlist_matching_nothing_yields_an_empty_catalog() {
    let mut targets = vec![target("spark")];
    apply_estate_filter(&mut targets, &parse_estates("nonexistent"));
    assert!(targets.is_empty());
}

/// The same parse written with std's own string operations.
fn std_parse(raw: &str) -> Vec<String> {
    raw.split(',')
        .map(|estate| estate.trim())
        .filter(|estate| !estate.is_empty())
        .map(|estate| estate.to_ascii_lowercase())
        .collect()
}

#[test]
fn parse_estates_agrees_with_std_string_operations() {
    let inputs = [
        "",
        ",",
        ",,,",
        " spark ",
        "\tSpark\n,\u{3000}CoreDump\u{a0}",
        "a,,b",
        "  ,x , ,Y,",
        "ÄBC, Éstate",
        "\u{2028}\u{2029}",
        "multi word, estate",
        "\u{85}cloud\u{200a}",
        "zero\u{200b}width",
    ];
    for raw in inputs {
        assert_eq!(parse_estates(raw), std_parse(raw), "input {raw:?}");
    }
}

#[test]
fn parse_estates_keeps_non_ascii_case() {
    assert_eq!(parse_estates("ÄBC, Éstate"), ["Äbc", "Éstate"]);
}

#[test]
fn parse_estates_trims_unicode_whitespace() {
    assert_eq!(parse_estates("\u{3000}Spark\u{a0}, \u{2003}cloud"), ["spark", "cloud"]);
}

#[test]
fn filter_keeps_order_and_is_idempotent() {
    let allowed = parse_estates("cloud, SPARK");
    let mut targets = vec![
        slot("a", "spark", "x"),
        slot("b", "blackwell", "x"),
        slot("c", "Cloud", "x"),
        slot("d", "SPARK", "y"),
    ];
    apply_estate_filter(&mut targets, &allowed);
    assert_eq!(slot_ids(&targets), ["a", "c", "d"]);
    apply_estate_filter(&mut targets, &allowed);
    assert_eq!(slot_ids(&targets), ["a", "c", "d"]);
}

#[test]
fn filter_matches_a_mixed_case_allowlist() {
    let mut targets = vec![target("Spark")];
    apply_estate_filter(&mut targets, &["Spark".to_string()]);
    assert_eq!(targets.len(), 1);

    let allowed = vec!["SPARK".to_string(), "Cloud".to_string()];
    let mut targets = vec![target("spark"), target("blackwell"), target("cLoUd"), target("Spark")];
    apply_estate_filter(&mut targets, &allowed);
    assert_eq!(
        targets.iter().map(|t| t.estate.as_str()).collect::<Vec<_>>(),
        ["spark", "cLoUd", "Spark"]
    );
}

#[test]
fn a_received_catalog_is_filtered_and_listed_by_estate_then_hardware() {
    let received = vec![
        slot("1", "spark", "b"),
        slot("2", "blackwell", "z"),
        slot("3", "spark", "a"),
        slot("4", "other", "a"),
        slot("5", "blackwell", "a"),
        slot("6", "spark", "a"),
    ];
    let estates = parse_estates("spark,blackwell");
    match next_catalog(CatalogFetch::Received(received), &estates) {
        CatalogUpdate::Replace(c) => assert_eq!(slot_ids(&c), ["5", "2", "3", "6", "1"]),
        CatalogUpdate::Warn(_) => panic!("a received catalog is published"),
    }
}

#[test]
fn catalog_order_agrees_with_std_stable_sort() {
    let names = ["b", "a", "B", "ä", "", "ab", "a", "zz", "é", "b"];
    let mut received = Vec::new();
    for (i, e) in names.iter().enumerate() {
        for (j, h) in names.iter().rev().enumerate() {
            if (i + j) % 3 == 0 {
                received.push(slot(&format!("{i}-{j}"), e, h));
            }
        }
    }
    let mut expected = received.clone();
    expected.sort_by(|a, b| a.estate.cmp(&b.estate).then_with(|| a.hardware.cmp(&b.hardware)));
    match next_catalog(CatalogFetch::Received(received), &[]) {
        CatalogUpdate::Replace(c) => assert_eq!(c, expected),
        CatalogUpdate::Warn(_) => panic!("a received catalog is published"),
    }
}

#[test]
fn failed_polls_keep_the_catalog_and_warn() {
    assert!(matches!(
        next_catalog(CatalogFetch::RequestFailed, &[]),
        CatalogUpdate::Warn(CatalogProblem::RequestFailed)
    ));
    assert!(matches!(
        next_catalog(CatalogFetch::ErrorStatus, &[]),
        CatalogUpdate::Warn(CatalogProblem::ErrorStatus)
    ));
    assert!(matches!(
        next_catalog(CatalogFetch::InvalidBody, &[]),
        CatalogUpdate::Warn(CatalogProblem::InvalidBody)
    ));
}

#[test]
fn an_empty_catalog_is_published_empty() {
    match next_catalog(CatalogFetch::Received(vec![]), &parse_estates("spark")) {
        CatalogUpdate::Replace(c) => assert!(c.is_empty()),
        CatalogUpdate::Warn(_) => panic!("a received catalog is published"),
    }
}

#[test]
fn parsed_entries_are_clean() {
    for raw in ["  Spark ,, CLOUD\t, \u{3000}Core Dump\u{a0},", "A,b,C", ",,,x"] {
        for e in parse_estates(raw) {
            assert!(!e.is_empty());
            assert_eq!(e.trim(), e);
            assert!(!e.contains(','));
            assert!(!e.chars().any(|c| c.is_ascii_uppercase()));
        }
    }
}

#[test]
fn only_a_blank_setting_parses_to_nothing() {
    assert!(parse_estates("\t,\u{a0}, \u{2028}").is_empty());
    assert_eq!(parse_estates("\u{3000},x"), ["x"]);

    let mut targets = vec![target("spark"), target("cloud")];
    apply_estate_filter(&mut targets, &parse_estates("\t,\u{a0}"));
    assert_eq!(targets.len(), 2);
}

#[test]
fn the_ascii_case_of_the_setting_never_matters() {
    for raw in ["spark, coredump", "Spark,CLOUD", "  ,x , ,Y,", "ÄBC, Éstate", ""] {
        assert_eq!(parse_estates(&raw.to_ascii_uppercase()), parse_estates(raw), "input {raw:?}");
        assert_eq!(parse_estates(&raw.to_ascii_lowercase()), parse_estates(raw), "input {raw:?}");
    }
}
