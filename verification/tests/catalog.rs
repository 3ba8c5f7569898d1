use localepick::engine::get_language_list;
use localepick::engine::lookup_locale;
use localepick::engine::search_fn_locales;
use localepick::engine::sort_records;
use localepick::parser::parse_languagelist;
use localepick::CatalogError;

fn rec(d: &str, c: &str, e: &str) -> (String, String, String) {
    (d.to_string(), c.to_string(), e.to_string())
}

#[test]
fn parse_single_line_extracts_fields() {
    let out = parse_languagelist(b"x;EN;x;Disp;x;x;code;x\n").unwrap();
    assert_eq!(out, vec![rec("Disp", "code", "EN")]);
}

#[test]
fn line_with_seven_segments_parses() {
    let out = parse_languagelist(b"x;EN;x;Disp;x;x;code").unwrap();
    assert_eq!(out, vec![rec("Disp", "code", "EN")]);
}

#[test]
fn empty_input_parses_to_empty() {
    assert_eq!(parse_languagelist(b"").unwrap(), vec![]);
}

#[test]
fn comments_and_blanks_ignored() {
    let noisy = b"# header\n\n   \t\nx;EN;x;Disp;x;x;code;x\n  # indented comment\n\nx;DE;x;Deutsch;x;x;de_DE;x\n\n# tail\n";
    let clean = b"x;EN;x;Disp;x;x;code;x\nx;DE;x;Deutsch;x;x;de_DE;x\n";
    let a = parse_languagelist(noisy).unwrap();
    let b = parse_languagelist(clean).unwrap();
    assert_eq!(a, b);
    assert_eq!(a.len(), 2);
}

#[test]
fn undecodable_record_dropped() {
    let mut input: Vec<u8> = Vec::new();
    input.extend_from_slice(b"x;EN;x;Disp;x;x;code;x\n");
    input.extend_from_slice(b"x;\xff\xfe;x;Bad;x;x;bad;x\n");
    input.extend_from_slice(b"x;DE;x;Deutsch;x;x;de_DE;x\n");
    let out = parse_languagelist(&input).unwrap();
    assert_eq!(out, vec![rec("Disp", "code", "EN"), rec("Deutsch", "de_DE", "DE")]);
}

#[test]
fn multibyte_fields_decode() {
    let line = format!("x;Chinese;x;{};x;x;zh_CN;x\n", "\u{4e2d}\u{6587}");
    let out = parse_languagelist(line.as_bytes()).unwrap();
    assert_eq!(out, vec![rec("\u{4e2d}\u{6587}", "zh_CN", "Chinese")]);
}

#[test]
fn short_line_fails_whole_catalog() {
    let input = b"x;EN;x;Disp;x;x;code;x\nonly;three;fields\n";
    assert_eq!(parse_languagelist(input), Err(CatalogError::MalformedCatalog));
    assert_eq!(get_language_list(input), Err(CatalogError::MalformedCatalog));
}

#[test]
fn priority_names_head_catalog() {
    let input = b"x;English;x;English name;x;x;en_US;x\n\
x;Aaa;x;Aaa;x;x;aa;x\n\
x;Chinese (Simplified);x;Zhongwen S;x;x;zh_CN;x\n\
x;Chinese (Traditional);x;Zhongwen T;x;x;zh_TW;x\n\
x;Zzz;x;Zzz;x;x;zz;x\n";
    let cat = get_language_list(input).unwrap();
    assert_eq!(cat.len(), 5);
    assert_eq!(cat[0].2, "Chinese (Simplified)");
    assert_eq!(cat[1].2, "Chinese (Traditional)");
    assert_eq!(cat[2].2, "English");
    assert_eq!(cat[3].2, "Aaa");
    assert_eq!(cat[4].2, "Zzz");
}

#[test]
fn missing_priority_entry_fails() {
    let input = b"x;English;x;E;x;x;en;x\nx;Chinese (Traditional);x;T;x;x;zh_TW;x\n";
    assert_eq!(get_language_list(input), Err(CatalogError::MissingPriorityEntry));
}

#[test]
fn sort_orders_by_triple() {
    let items = vec![rec("b", "1", "x"), rec("a", "2", "y"), rec("a", "1", "z")];
    let s = sort_records(items);
    assert_eq!(s, vec![rec("a", "1", "z"), rec("a", "2", "y"), rec("b", "1", "x")]);
}

#[test]
fn filter_is_case_insensitive() {
    let items = vec![rec("English name", "en_US", "English"), rec("Deutsch", "de_DE", "German")];
    for q in ["en", "EN", "En"] {
        let r = search_fn_locales(items.clone(), q);
        assert!(r.contains(&"English name".to_string()), "query {} missed", q);
    }
}

#[test]
fn query_folding_reaches_lowercase_fields() {
    let items = vec![rec("name", "xx", "english")];
    assert_eq!(search_fn_locales(items, "ENGLISH"), vec!["name".to_string()]);
}

#[test]
fn field_folding_reaches_uppercase_fields() {
    let items = vec![rec("name", "xx", "ENGLISH")];
    assert_eq!(search_fn_locales(items, "english"), vec!["name".to_string()]);
}

#[test]
fn filter_matches_on_locale_code_alone() {
    let items = vec![rec("English", "en_US", "English"), rec("Deutsch", "de_DE", "German")];
    assert_eq!(search_fn_locales(items, "us"), vec!["English".to_string()]);
}

#[test]
fn filter_keeps_catalog_order() {
    let items = vec![rec("B name", "b", "Bx"), rec("A name", "a", "Ax"), rec("C name", "c", "Cx")];
    let r = search_fn_locales(items, "name");
    assert_eq!(r, vec!["B name".to_string(), "A name".to_string(), "C name".to_string()]);
}

#[test]
fn filter_no_match_returns_empty() {
    let items = vec![rec("A", "a", "A"), rec("B", "b", "B")];
    assert_eq!(search_fn_locales(items, "zzz"), Vec::<String>::new());
}

#[test]
fn empty_query_returns_all_in_order() {
    let items = vec![rec("B", "b", "B"), rec("A", "a", "A"), rec("A", "a", "A")];
    let r = search_fn_locales(items, "");
    assert_eq!(r, vec!["B".to_string(), "A".to_string(), "A".to_string()]);
}

#[test]
fn data_line_with_leading_whitespace_is_data() {
    let out = parse_languagelist(b"  x;EN;x;Disp;x;x;code;x\n").unwrap();
    assert_eq!(out, vec![rec("Disp", "code", "EN")]);
}

#[test]
fn load_filter_lookup_pipeline() {
    let input = b"# locales\nx;English;x;English name;x;x;en_US.UTF-8;x\n\
x;Chinese (Simplified);x;S;x;x;zh_CN.UTF-8;x\n\
x;Chinese (Traditional);x;T;x;x;zh_TW.UTF-8;x\n\
x;German;x;Deutsch;x;x;de_DE.UTF-8;x\n";
    let cat = get_language_list(input).unwrap();
    let shown = search_fn_locales(cat.clone(), "DEUT");
    assert_eq!(shown, vec!["Deutsch".to_string()]);
    assert_eq!(lookup_locale(&cat, "Deutsch"), Some("de_DE.UTF-8".to_string()));
}

#[test]
fn lookup_returns_first_match_in_order() {
    let items = vec![rec("Name", "first", "E1"), rec("Name", "second", "E2")];
    assert_eq!(lookup_locale(&items, "Name"), Some("first".to_string()));
    assert_eq!(lookup_locale(&items, "Missing"), None);
}
