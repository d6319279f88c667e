use zvuk::storage::{file_stem, slug, strip_diacritics};

#[test]
fn slug_folds_diacritics_and_collapses_separators() {
    assert_eq!(slug("po ztlumeni dveri"), "po-ztlumeni-dveri");
    assert_eq!(
        slug("P\u{159}\u{ed}li\u{161} \u{17e}lu\u{165}ou\u{10d}k\u{fd}"),
        "prilis-zlutoucky"
    );
    assert_eq!(slug("  --  A/B  --  "), "a-b");
}

#[test]
fn slug_of_unusable_input_is_empty() {
    assert_eq!(slug("///"), "");
    assert_eq!(slug(""), "");
}

#[test]
fn slug_folds_capital_accented_letters_too() {
    assert_eq!(slug("\u{158}EKA \u{10c}ERN\u{c1}"), "reka-cerna");
    assert_eq!(slug("Stra\u{df}e 12"), "strase-12");
}

#[test]
fn slug_keeps_digits_and_drops_trailing_separators() {
    assert_eq!(slug("left-right-balance"), "left-right-balance");
    assert_eq!(slug("run 2!!"), "run-2");
    assert_eq!(slug("!!x"), "x");
}

#[test]
fn strip_diacritics_knows_only_the_table() {
    assert_eq!(strip_diacritics('\u{e1}'), Some('a'));
    assert_eq!(strip_diacritics('\u{141}'), Some('l'));
    assert_eq!(strip_diacritics('\u{df}'), Some('s'));
    assert_eq!(strip_diacritics('x'), None);
    assert_eq!(strip_diacritics('/'), None);
}

#[test]
fn ascii_never_has_a_diacritic_to_strip() {
    for c in ['-', ' ', 'A', 'z', '0', '~', '\t'] {
        assert_eq!(strip_diacritics(c), None, "{c:?}");
    }
}

#[test]
fn a_slug_is_its_own_slug() {
    for t in ["po ztlumeni dveri", "P\u{159}\u{ed}li\u{161} \u{17e}lu\u{165}ou\u{10d}k\u{fd}", "  --  A/B  --  ", "///", "a-b-c", "run 2!!"] {
        let once = slug(t);
        assert_eq!(slug(&once), once, "{t:?}");
    }
}

#[test]
fn file_stem_joins_stamp_module_and_label() {
    assert_eq!(
        file_stem("20240102-030405", "left-right-balance", Some("Po \u{17e}tlumen\u{ed}")),
        "20240102-030405_left-right-balance_po-ztlumeni"
    );
    assert_eq!(file_stem("20240102-030405", "crossover-check", None), "20240102-030405_crossover-check");
    assert_eq!(file_stem("s", "Crossover Check", Some("///")), "s_crossover-check");
}
