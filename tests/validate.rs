use flock::{is_valid_flag_dir, is_valid_port, is_valid_template_dir, MAX_PORT};

#[test]
fn is_valid_flag_dir_for_target() {
    // "target" holds no catalog file, so its layout is wrong.
    let result = is_valid_flag_dir("target", false, "target/countries.json", None);
    assert!(result.is_err());
    assert_eq!(result.unwrap_err(), "target is not valid");
}

#[test]
fn is_valid_template_dir_for_templates() {
    let result = is_valid_template_dir("templates", true, true);
    assert!(result.is_ok());
    assert_eq!(result.unwrap(), "templates");
}

#[test]
fn is_valid_template_dir_without_template() {
    let result = is_valid_template_dir("templates", true, false);
    assert_eq!(result.unwrap_err(), "templates is not valid");
    let result = is_valid_template_dir("missing", false, false);
    assert_eq!(result.unwrap_err(), "missing is not valid");
}

#[test]
fn is_valid_port_for_string() {
    let result = is_valid_port("str");
    assert!(result.is_err());
    assert_eq!(result.unwrap_err(), "invalid digit found in string");
}

#[test]
fn is_valid_port_for_8000() {
    let result = is_valid_port("8000");
    assert!(result.is_ok());
    assert_eq!(result.unwrap(), 8000);
}

#[test]
fn is_valid_port_for_max_port() {
    let result = is_valid_port(&MAX_PORT.to_string());
    assert!(result.is_err());
    assert_eq!(
        result.unwrap_err(),
        format!("value should be less than {}", MAX_PORT)
    );
}

#[test]
fn is_valid_port_edges() {
    assert_eq!(is_valid_port("32767"), Ok(32767));
    assert_eq!(is_valid_port("+80"), Ok(80));
    assert_eq!(is_valid_port("0"), Ok(0));
    assert_eq!(
        is_valid_port("65535").unwrap_err(),
        "value should be less than 32768"
    );
    assert!(is_valid_port("").is_err());
    assert!(is_valid_port("65536").is_err());
    assert!(is_valid_port("-1").is_err());
    assert!(is_valid_port(" 80").is_err());
}

#[test]
fn is_valid_flag_dir_checks_catalog() {
    let good = br#"{"AD":"Andorra"}"#;
    let result = is_valid_flag_dir("flags", true, "flags/countries.json", Some(&good[..]));
    assert_eq!(result.unwrap(), "flags");
    let bad = b"[1, 2]";
    let result = is_valid_flag_dir("flags", true, "flags/countries.json", Some(&bad[..]));
    assert_eq!(result.unwrap_err(), "flags/countries.json is not valid");
    let result = is_valid_flag_dir("flags", true, "flags/countries.json", None);
    assert_eq!(result.unwrap_err(), "flags/countries.json is not valid");
}
