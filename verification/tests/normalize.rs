//! How raw names fold into keys.
use geo_trie_rs::normalize;

#[test]
fn lowercases_ascii() {
    assert_eq!(normalize("Berlin"), "berlin");
    assert_eq!(normalize("NEW YORK"), "new york");
}

#[test]
fn strips_diacritics() {
    // Café -> cafe, Solnechnogorsk-ish Cyrillic stays but lowercased.
    assert_eq!(normalize("Café"), "cafe");
    assert_eq!(normalize("Zürich"), "zurich");
    assert_eq!(normalize("São Paulo"), "sao paulo");
    assert_eq!(normalize("Đà Nẵng"), "đa nang");
}

#[test]
fn collapses_separators() {
    assert_eq!(normalize("New---York"), "new york");
    // `_` is no separator: dropped, not spaced.
    assert_eq!(normalize("a_b/c,d.e"), "ab c d e");
    assert_eq!(normalize("  spaced   out  "), "spaced out");
    assert_eq!(normalize("Saint-Étienne"), "saint etienne");
}

#[test]
fn apostrophes_and_quotes_are_dropped_not_spaced() {
    // `'` and `"` are removed with no space.
    assert_eq!(normalize("O'Brien"), "obrien");
    assert_eq!(normalize("St. John's"), "st johns");
    assert_eq!(normalize("N'Djamena"), "ndjamena");
    assert_eq!(normalize("Val-d'Or"), "val dor"); // hyphen spaces, apostrophe drops
    assert_eq!(normalize("\"Quoted\""), "quoted");
    assert_eq!(normalize("St. John's (Town)"), "st johns town");
}

#[test]
fn trims_edges_and_handles_empty() {
    assert_eq!(normalize(""), "");
    assert_eq!(normalize("   "), "");
    assert_eq!(normalize("---"), "");
    assert_eq!(normalize("  Rio  "), "rio");
}

#[test]
fn is_idempotent() {
    for s in ["Café  de   Flore", "São-Paulo", "  Zürich_HB ", "N.Y.C."] {
        let once = normalize(s);
        let twice = normalize(&once);
        assert_eq!(once, twice);
    }
}

#[test]
fn keeps_cyrillic_lowercased() {
    assert_eq!(normalize("Солнечногорск"), "солнечногорск");
}

#[test]
fn nfkd_compatibility_decomposition() {
    // Ligatures, superscripts and full-width forms fold to their ASCII base.
    assert_eq!(normalize("ﬁnd"), "find"); // U+FB01 ligature fi
    assert_eq!(normalize("m²"), "m2"); // superscript two
    assert_eq!(normalize("ＦＵＬＬ"), "full"); // full-width latin
}

#[test]
fn collapses_mixed_and_repeated_separators() {
    assert_eq!(normalize("a  -_/,. b"), "a b");
    assert_eq!(normalize("(New) York"), "new york");
}

#[test]
fn only_separators_and_diacritics_yield_empty() {
    assert_eq!(normalize(" - _ / "), "");
    // A lone combining acute accent (U+0301) decomposes/drops to nothing.
    assert_eq!(normalize("\u{0301}"), "");
}

#[test]
fn idempotent_on_compatibility_and_mixed() {
    for s in ["ﬁnd", "m²", "ＦＵＬＬ", "(New)--York", "  O'Brien  "] {
        assert_eq!(normalize(&normalize(s)), normalize(s));
    }
}
