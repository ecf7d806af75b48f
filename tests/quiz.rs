use flock::{
    draw_selection, get_country_codes, get_country_with_flag, get_flag_base64_encoded,
    get_options, get_question, Countries, Question, QuizError, Selection, NUMBER_OF_OPTIONS,
};

fn catalog(entries: &[(&str, &str)]) -> Countries {
    let mut countries = Countries::new();
    for (code, name) in entries {
        assert!(countries.insert(code.to_string(), name.to_string()));
    }
    countries
}

fn dummy_countries() -> Countries {
    catalog(&[
        ("AD", "Andorra"),
        ("DE", "Germany"),
        ("CH", "Switzerland"),
        ("AE", "United Arab Emirates"),
    ])
}

fn six_countries() -> Countries {
    catalog(&[
        ("AD", "Andorra"),
        ("AE", "United Arab Emirates"),
        ("AF", "Afghanistan"),
        ("ZA", "South Africa"),
        ("ZM", "Zambia"),
        ("ZW", "Zimbabwe"),
    ])
}

fn codes(q: &Question) -> Vec<String> {
    q.options.iter().map(|o| o.cca2.clone()).collect()
}

fn check_question(countries: &Countries, q: &Question, flag: &[u8]) {
    let encoded = get_flag_base64_encoded(flag);
    assert_eq!(q.options.len(), NUMBER_OF_OPTIONS);
    let ids = codes(q);
    let mut sorted = ids.clone();
    sorted.sort();
    sorted.dedup();
    assert_eq!(ids, sorted);
    for option in &q.options {
        assert_eq!(countries.get(&option.cca2).unwrap(), &option.name);
    }
    let flagged: Vec<&flock::Country> = q.options.iter().filter(|o| !o.flag.is_empty()).collect();
    assert_eq!(flagged.len(), 1);
    assert_eq!(flagged[0].cca2, q.country.cca2);
    assert_eq!(flagged[0].flag, encoded);
    assert_eq!(q.country.flag, encoded);
    assert_eq!(countries.get(&q.country.cca2).unwrap(), &q.country.name);
}

#[test]
fn get_options_in_sorted_order() {
    let countries = dummy_countries();
    let country_codes: Vec<String> = ["AD", "DE", "CH", "AE"].iter().map(|c| c.to_string()).collect();
    let result = get_options(&countries, country_codes);
    assert_eq!(result.len(), 4);
    // verify options in cca2 order
    assert_eq!(result[0].cca2, "AD");
    assert_eq!(result[1].cca2, "AE");
    assert_eq!(result[2].cca2, "CH");
    assert_eq!(result[3].cca2, "DE");
}

#[test]
fn get_options_carries_names_and_no_flags() {
    let countries = dummy_countries();
    let result = get_options(&countries, vec!["DE".to_string(), "AD".to_string()]);
    assert_eq!(result.len(), 2);
    assert_eq!(result[0].name, "Andorra");
    assert_eq!(result[1].name, "Germany");
    assert!(result.iter().all(|o| o.flag.is_empty()));
}

#[test]
fn get_country_with_flag_encodes_flag() {
    let country = get_country_with_flag("AD", "Andorra", b"hello");
    assert_eq!(country.cca2, "AD");
    assert_eq!(country.name, "Andorra");
    assert_eq!(country.flag, "aGVsbG8");
}

#[test]
fn draw_selection_picks_distinct_countries() {
    let countries = six_countries();
    for _ in 0..50 {
        let selection = draw_selection(&countries).unwrap();
        assert!(countries.contains_key(&selection.target));
        assert_eq!(selection.distractors.len(), NUMBER_OF_OPTIONS - 1);
        let mut all = selection.distractors.clone();
        all.push(selection.target.clone());
        for code in &all {
            assert!(countries.contains_key(code));
        }
        all.sort();
        all.dedup();
        assert_eq!(all.len(), NUMBER_OF_OPTIONS);
    }
}

#[test]
fn question_options_sorted_with_one_flag() {
    let countries = six_countries();
    let flag = [137u8, 80, 78, 71, 13, 10, 26, 10];
    for _ in 0..50 {
        let selection = draw_selection(&countries).unwrap();
        let q = get_question(&countries, &selection, &flag);
        assert_eq!(q.country.cca2, selection.target);
        check_question(&countries, &q, &flag);
    }
}

#[test]
fn question_for_four_countries_shows_all_sorted() {
    let countries = catalog(&[
        ("AD", "Andorra"),
        ("AE", "UAE"),
        ("AF", "Afghanistan"),
        ("ZA", "South Africa"),
    ]);
    let selection = draw_selection(&countries).unwrap();
    let q = get_question(&countries, &selection, b"flag bytes");
    assert_eq!(codes(&q), vec!["AD", "AE", "AF", "ZA"]);
    check_question(&countries, &q, b"flag bytes");
}

#[test]
fn draw_selection_needs_enough_countries() {
    let countries = catalog(&[("AD", "Andorra"), ("AE", "UAE"), ("AF", "Afghanistan")]);
    assert_eq!(
        draw_selection(&countries).err(),
        Some(QuizError::InsufficientData)
    );
    assert_eq!(
        draw_selection(&Countries::new()).err(),
        Some(QuizError::InsufficientData)
    );
}

#[test]
fn get_question_for_given_selection() {
    let countries = six_countries();
    let selection = Selection {
        target: "ZM".to_string(),
        distractors: vec!["ZW".to_string(), "AD".to_string(), "AF".to_string()],
    };
    let q = get_question(&countries, &selection, b"hello");
    assert_eq!(codes(&q), vec!["AD", "AF", "ZM", "ZW"]);
    assert_eq!(q.country.cca2, "ZM");
    assert_eq!(q.country.name, "Zambia");
    assert_eq!(q.country.flag, "aGVsbG8");
    assert_eq!(q.options[2].flag, "aGVsbG8");
    assert_eq!(q.options[0].flag, "");
    assert_eq!(q.options[1].flag, "");
    assert_eq!(q.options[3].flag, "");
    assert_eq!(get_country_codes(&countries).len(), 6);
}
