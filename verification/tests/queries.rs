use dictionary_parser::TableDictionaryEngine;

fn pair(k: &str, v: &str) -> (String, String) {
    (String::from(k), String::from(v))
}

#[test]
fn exact_match_single() {
    let e = TableDictionaryEngine::new(String::from("apple\tA fruit\nApply\tTo use\n"));
    assert_eq!(e.collect_word("apple"), vec![pair("apple", "A fruit")]);
}

#[test]
fn exact_match_is_case_sensitive() {
    let e = TableDictionaryEngine::new(String::from("apple\tA fruit\nApply\tTo use\n"));
    assert_eq!(e.collect_word("APPLE"), Vec::<(String, String)>::new());
}

#[test]
fn exact_duplicate_keys_keep_scan_order() {
    let e = TableDictionaryEngine::new(String::from("k\tfirst\nz\tother\nk\tsecond\n"));
    assert_eq!(e.collect_word("k"), vec![pair("k", "first"), pair("k", "second")]);
}

#[test]
fn exact_no_match_is_empty_not_error() {
    let e = TableDictionaryEngine::new(String::from("apple\tA fruit\n"));
    assert_eq!(e.collect_word("pear"), Vec::<(String, String)>::new());
}

#[test]
fn wildcard_is_case_sensitive() {
    let e = TableDictionaryEngine::new(String::from("apple\tA fruit\nApply\tTo use\n"));
    assert_eq!(e.collect_word_for_wildcard("app*"), vec![pair("apple", "A fruit")]);
}

#[test]
fn converted_wildcard_capital_sorts_before_lowercase() {
    let e = TableDictionaryEngine::new(String::from("apple\tA fruit\nApply\tTo use\n"));
    assert_eq!(
        e.collect_word_from_converted_string_for_wildcard("app*"),
        vec![pair("Apply", "To use"), pair("apple", "A fruit")]
    );
}

#[test]
fn wildcard_is_anchored() {
    let e = TableDictionaryEngine::new(String::from("xabcx\touter\nabc\tinner\n"));
    assert_eq!(e.collect_word_for_wildcard("abc"), vec![pair("abc", "inner")]);
}

#[test]
fn wildcard_star_alone_matches_every_key() {
    let e = TableDictionaryEngine::new(String::from("b\ttwo\na\tone\n"));
    assert_eq!(e.collect_word_for_wildcard("*"), vec![pair("a", "one"), pair("b", "two")]);
}

#[test]
fn wildcard_question_mark_matches_exactly_one() {
    let e = TableDictionaryEngine::new(String::from("abc\t1\nac\t2\nabbc\t3\n"));
    assert_eq!(e.collect_word_for_wildcard("a?c"), vec![pair("abc", "1")]);
}

#[test]
fn wildcard_empty_pattern_matches_no_stored_key() {
    let e = TableDictionaryEngine::new(String::from("a\t1\n"));
    assert_eq!(e.collect_word_for_wildcard(""), Vec::<(String, String)>::new());
}

#[test]
fn converted_query_ignores_case_and_accents() {
    let e = TableDictionaryEngine::new(String::from("Café\tcoffee\n"));
    assert_eq!(
        e.collect_word_from_converted_string_for_wildcard("cafe"),
        vec![pair("Café", "coffee")]
    );
    assert_eq!(
        e.collect_word_from_converted_string_for_wildcard("CAFÉ"),
        vec![pair("Café", "coffee")]
    );
}

#[test]
fn converted_result_keeps_stored_form() {
    let e = TableDictionaryEngine::new(String::from("Año\tyear\n"));
    let r = e.collect_word_from_converted_string_for_wildcard("ano");
    assert_eq!(r, vec![pair("Año", "year")]);
}

#[test]
fn empty_content_yields_empty_result_in_every_mode() {
    let e = TableDictionaryEngine::new(String::new());
    assert_eq!(e.collect_word(""), Vec::<(String, String)>::new());
    assert_eq!(e.collect_word("x"), Vec::<(String, String)>::new());
    assert_eq!(e.collect_word_for_wildcard("*"), Vec::<(String, String)>::new());
    assert_eq!(
        e.collect_word_from_converted_string_for_wildcard("*"),
        Vec::<(String, String)>::new()
    );
}

#[test]
fn empty_value_is_preserved_not_dropped() {
    let e = TableDictionaryEngine::new(String::from("key\t\n"));
    assert_eq!(e.collect_word("key"), vec![pair("key", "")]);
}

#[test]
fn lines_before_the_first_headword_are_skipped() {
    let e = TableDictionaryEngine::new(String::from("noseparator\n\tmissingkey\ngood\tval\n"));
    assert_eq!(e.collect_word_for_wildcard("*"), vec![pair("good", "val")]);
}

#[test]
fn content_without_any_headword_yields_nothing() {
    let e = TableDictionaryEngine::new(String::from("just text\n\nmore text\n"));
    assert_eq!(e.collect_word_for_wildcard("*"), Vec::<(String, String)>::new());
}

#[test]
fn continuation_lines_extend_the_preceding_value() {
    let e = TableDictionaryEngine::new(String::from("k\tfirst\nmore text\nz\tlast\n"));
    assert_eq!(e.collect_word("k"), vec![pair("k", "first\nmore text")]);
    assert_eq!(e.collect_word("z"), vec![pair("z", "last")]);
}

#[test]
fn continuation_runs_to_the_end_of_content() {
    let e = TableDictionaryEngine::new(String::from("k\tv\n\tindented tail"));
    assert_eq!(e.collect_word("k"), vec![pair("k", "v\n\tindented tail")]);
}

#[test]
fn value_may_contain_further_tabs() {
    let e = TableDictionaryEngine::new(String::from("k\ta\tb\n"));
    assert_eq!(e.collect_word("k"), vec![pair("k", "a\tb")]);
}

#[test]
fn last_record_without_trailing_newline_is_kept() {
    let e = TableDictionaryEngine::new(String::from("a\t1\nb\t2"));
    assert_eq!(e.collect_word("b"), vec![pair("b", "2")]);
}

#[test]
fn repeated_query_returns_identical_sequence() {
    let e = TableDictionaryEngine::new(String::from("k\tfirst\nApply\tTo use\nk\tsecond\n"));
    let first = e.collect_word_for_wildcard("*");
    let second = e.collect_word_for_wildcard("*");
    assert_eq!(first, second);
}

#[test]
fn results_sort_by_ordinal_capitals_first() {
    let e = TableDictionaryEngine::new(String::from("b\t2\nA\t1\na\t3\nB\t4\n"));
    assert_eq!(
        e.collect_word_for_wildcard("?"),
        vec![pair("A", "1"), pair("B", "4"), pair("a", "3"), pair("b", "2")]
    );
}

#[test]
fn question_mark_matches_one_multibyte_character() {
    let e = TableDictionaryEngine::new(String::from("é\taccent\nab\tpair\n"));
    assert_eq!(e.collect_word_for_wildcard("?"), vec![pair("é", "accent")]);
}

#[test]
fn converted_wildcard_with_metacharacters_and_accents() {
    let e = TableDictionaryEngine::new(String::from("Éclair\tpastry\nelan\tzeal\n"));
    assert_eq!(
        e.collect_word_from_converted_string_for_wildcard("e?l*"),
        vec![pair("Éclair", "pastry")]
    );
}

#[test]
fn round_trip_recovers_every_distinct_record() {
    let records = vec![pair("alpha", "1"), pair("beta", "2"), pair("gamma", "3")];
    let mut content = String::new();
    for (k, v) in &records {
        content.push_str(k);
        content.push('\t');
        content.push_str(v);
        content.push('\n');
    }
    let e = TableDictionaryEngine::new(content);
    let mut recovered: Vec<(String, String)> = Vec::new();
    for (k, _) in &records {
        let r = e.collect_word(k);
        assert_eq!(r.len(), 1);
        recovered.push(r[0].clone());
    }
    assert_eq!(recovered, records);
}
