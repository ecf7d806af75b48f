use flock::{filter_countries, get_countries, get_country_codes, Countries, QuizError};

fn dummy_countries() -> Countries {
    let mut countries = Countries::new();
    // insert countries in name order
    countries.insert("AD".to_string(), "Andorra".to_string());
    countries.insert("DE".to_string(), "Germany".to_string());
    countries.insert("CH".to_string(), "Switzerland".to_string());
    countries.insert("AE".to_string(), "United Arab Emirates".to_string());
    countries
}

fn pair(code: &str, name: &str) -> (String, String) {
    (code.to_string(), name.to_string())
}

#[test]
fn filter_countries_for_gb_countries() {
    let countries = vec![
        pair("GB-ENG", "England"),
        pair("GB-SCT", "Scotland"),
        pair("GB-WLS", "Wales"),
        pair("GB", "United Kingdom"),
    ];
    let result = filter_countries(&countries);
    assert!(result.contains_key("GB"));
    assert_eq!(result.len(), 1);
}

#[test]
fn filter_countries_for_excluded_countries() {
    let countries = vec![
        pair("AD", "Andorra"),
        pair("AQ", "Antarctica"),
        pair("EU", "Europe"),
        pair("GB", "United Kingdom"),
        pair("YT", "Mayotte"),
        pair("ZW", "Zimbabwe"),
    ];
    let result = filter_countries(&countries);
    assert!(result.contains_key("AD"));
    assert!(!result.contains_key("AQ"));
    assert_eq!(result.len(), 3);
}

#[test]
fn filter_countries_drops_keys_of_other_lengths() {
    let countries = vec![
        pair("", "Nothing"),
        pair("A", "One"),
        pair("ABC", "Three"),
        pair("GB-NIR", "Northern Ireland"),
        pair("FR", "France"),
    ];
    let result = filter_countries(&countries);
    assert_eq!(result.len(), 1);
    assert!(result.contains_key("FR"));
    assert!(!result.contains_key("A"));
    assert!(!result.contains_key("ABC"));
    assert_eq!(get_country_codes(&result), vec!["FR".to_string()]);
}

#[test]
fn filter_countries_drops_every_excluded_code() {
    let excluded = [
        "AQ", "BL", "BQ", "BV", "EU", "GF", "GP", "GU", "HM", "LU", "MC", "MF", "MQ", "PM", "RE",
        "SH", "SJ", "TD", "TF", "UM", "VI", "XK", "YT",
    ];
    let countries: Vec<(String, String)> = excluded.iter().map(|c| pair(c, "Somewhere")).collect();
    let result = filter_countries(&countries);
    assert_eq!(result.len(), 0);
    for code in excluded {
        assert!(!result.contains_key(code));
    }
}

#[test]
fn filter_countries_keeps_last_name_for_repeated_code() {
    let countries = vec![pair("FR", "France"), pair("FR", "French Republic")];
    let result = filter_countries(&countries);
    assert_eq!(result.len(), 1);
    assert_eq!(result.get("FR").unwrap(), "French Republic");
}

#[test]
fn get_country_codes_in_sorted_order() {
    let countries = dummy_countries();
    let result = get_country_codes(&countries);
    assert_eq!(result.len(), 4);
    // verify country_codes in sorted order
    assert_eq!(result[0], "AD");
    assert_eq!(result[1], "AE");
    assert_eq!(result[2], "CH");
    assert_eq!(result[3], "DE");
}

#[test]
fn get_country_codes_of_empty_catalog() {
    let countries = Countries::new();
    assert!(get_country_codes(&countries).is_empty());
}

#[test]
fn get_country_codes_each_once() {
    let mut countries = dummy_countries();
    countries.insert("CH".to_string(), "Swiss Confederation".to_string());
    countries.insert("ZW".to_string(), "Zimbabwe".to_string());
    let result = get_country_codes(&countries);
    assert_eq!(result, vec!["AD", "AE", "CH", "DE", "ZW"]);
    assert_eq!(countries.get("CH").unwrap(), "Swiss Confederation");
}

#[test]
fn countries_insert_refuses_non_codes() {
    let mut countries = Countries::new();
    assert!(!countries.insert("GB-ENG".to_string(), "England".to_string()));
    assert!(!countries.insert("AQ".to_string(), "Antarctica".to_string()));
    assert!(countries.insert("GB".to_string(), "United Kingdom".to_string()));
    assert_eq!(countries.len(), 1);
    assert!(countries.get("AQ").is_none());
}

#[test]
fn get_countries_keeps_only_two_letter_codes() {
    let json = br#"{"GB-ENG":"England","GB":"UK"}"#;
    let result = get_countries(json).unwrap();
    assert_eq!(result.len(), 1);
    assert!(result.contains_key("GB"));
    assert_eq!(result.get("GB").unwrap(), "UK");
}

#[test]
fn get_countries_leaves_out_excluded_codes() {
    let json = br#"{"AQ":"Antarctica","AD":"Andorra"}"#;
    let result = get_countries(json).unwrap();
    assert_eq!(get_country_codes(&result), vec!["AD".to_string()]);
}

#[test]
fn get_countries_for_malformed_catalog() {
    assert_eq!(get_countries(b"not json").err(), Some(QuizError::ParseError));
    assert_eq!(get_countries(b"[\"AD\"]").err(), Some(QuizError::ParseError));
    assert_eq!(get_countries(br#"{"AD":1}"#).err(), Some(QuizError::ParseError));
    assert_eq!(get_countries(b"").err(), Some(QuizError::ParseError));
}

#[test]
fn get_countries_for_empty_object() {
    let result = get_countries(b"{}").unwrap();
    assert_eq!(result.len(), 0);
}
