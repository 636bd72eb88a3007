//! Lines of a table of places.
use geo_trie_rs::decimal::{parse_i64, parse_u64, write_decimal};
use geo_trie_rs::text::split_text;
use geo_trie_rs::tsv::{parse_line, split_columns, LineError};
use geo_trie_rs::{GeoRecord, Index, IndexBuilder};

fn columns(line: &str) -> Vec<String> {
    split_columns(line).unwrap()
}

fn parse(line: &str) -> Result<(GeoRecord, Vec<String>), LineError> {
    let cols = columns(line);
    let bits = |i: usize| cols.get(i).and_then(|c| c.parse::<f64>().ok()).map(f64::to_bits);
    parse_line(&cols, bits(2), bits(3))
}

#[test]
fn a_line_is_cut_at_tabs_after_its_line_end_is_dropped() {
    assert_eq!(columns("a\tb\t\tc\r\n"), vec!["a", "b", "", "c"]);
    assert_eq!(columns("a\r\n\r\n"), vec!["a"]);
    assert_eq!(columns("\t"), vec!["", ""]);
    assert_eq!(columns(" #x"), vec![" #x"]);
}

#[test]
fn empty_lines_and_comments_are_skipped() {
    assert!(split_columns("").is_none());
    assert!(split_columns("\r\n").is_none());
    assert!(split_columns("# gid\tname").is_none());
}

#[test]
fn cutting_and_joining_gives_the_text_back() {
    for text in ["", "|", "a|b||c", "плотина|ö"] {
        assert_eq!(split_text(text, '|').join("|"), text);
    }
    assert_eq!(split_text("a|b||c", '|'), vec!["a", "b", "", "c"]);
}

#[test]
fn a_full_line_becomes_a_place_and_its_names() {
    let (place, names) = parse("+7\tKöln\t-1.5\t6.95\tDE\t-12\tPPL\tColonia||Köln|\n").unwrap();
    assert_eq!(place.gid, 7);
    assert_eq!(place.name, "Köln");
    assert_eq!(place.lat_bits, (-1.5f64).to_bits());
    assert_eq!(place.lon_bits, (6.95f64).to_bits());
    assert_eq!(place.country, "DE");
    assert_eq!(place.population, -12);
    assert_eq!(place.feature_code, "PPL");
    assert_eq!(names, vec!["Colonia", "Köln"]);
}

#[test]
fn an_empty_names_column_leaves_the_name() {
    assert_eq!(parse("1\tA\t0\t0\tXX\t1\tPPL\t").unwrap().1, vec!["A"]);
    assert_eq!(parse("1\tA\t0\t0\tXX\t1\tPPL").unwrap().1, vec!["A"]);
    assert!(parse("1\tA\t0\t0\tXX\t1\tPPL\t||").unwrap().1.is_empty());
}

#[test]
fn the_first_thing_wrong_from_the_left_is_reported() {
    assert_eq!(parse("1\tA\t0").unwrap_err(), LineError::TooFewColumns(3));
    assert_eq!(parse("-1\tA\tx\ty\tXX\tz\tPPL").unwrap_err(), LineError::BadGid);
    assert_eq!(parse("1\tA\tx\ty\tXX\tz\tPPL").unwrap_err(), LineError::BadLat);
    assert_eq!(parse("1\tA\t0\ty\tXX\tz\tPPL").unwrap_err(), LineError::BadLon);
    assert_eq!(parse("1\tA\t0\t0\tXX\tz\tPPL").unwrap_err(), LineError::BadPopulation);
}

#[test]
fn line_errors_say_what_is_wrong() {
    assert_eq!(
        LineError::TooFewColumns(3).message(),
        "expected >=7 tab-separated columns, got 3"
    );
    assert_eq!(LineError::BadGid.message(), "bad gid");
    assert_eq!(LineError::BadLat.message(), "bad lat");
    assert_eq!(LineError::BadLon.message(), "bad lon");
    assert_eq!(LineError::BadPopulation.message(), "bad population");
    assert_eq!(LineError::BadLat.message_at(120), "line 120: bad lat");
}

#[test]
fn numbers_are_read_as_the_standard_library_reads_them() {
    for text in [
        "0", "007", "+5", "-5", "-0", "+", "-", "", " 1", "1 ", "1_000", "١", "++1", "+-1", "-+1",
        "18446744073709551615", "18446744073709551616", "9223372036854775807",
        "9223372036854775808", "-9223372036854775808", "-9223372036854775809",
        "99999999999999999999999999999999999999999999", "0000000000000000000000000000000000001",
    ] {
        assert_eq!(parse_u64(text), text.parse::<u64>().ok());
        assert_eq!(parse_i64(text), text.parse::<i64>().ok());
    }
}

#[test]
fn numbers_written_are_read_back() {
    for n in [0u64, 7, 10, 4096, u64::MAX] {
        assert_eq!(write_decimal(n), format!("{}", n));
        assert_eq!(parse_u64(&write_decimal(n)), Some(n));
    }
}

#[test]
fn a_place_without_usable_names_is_found_by_its_own() {
    let (place, _) = parse("1\tQuito\t0\t0\tEC\t1\tPPLC\t").unwrap();
    let mut b = IndexBuilder::new();
    b.add_place(&place, &vec!["--".to_string(), "'".to_string()]);
    assert_eq!(b.n_records(), 1);
    assert_eq!(b.n_links(), 1);
    let (fst, records) = b.build().unwrap();
    let idx = Index::from_bytes(fst, records).unwrap();
    assert_eq!(idx.suggest_geo("QUI", 8).unwrap(), vec![place]);
}

#[test]
fn a_place_with_names_is_found_by_those_alone() {
    let (place, names) = parse("1\tQuito\t0\t0\tEC\t1\tPPLC\tKitu|San Francisco").unwrap();
    let mut b = IndexBuilder::new();
    b.add_place(&place, &names);
    assert_eq!(b.n_links(), 2);
    let (fst, records) = b.build().unwrap();
    let idx = Index::from_bytes(fst, records).unwrap();
    assert!(idx.suggest_geo("quito", 8).unwrap().is_empty());
    assert_eq!(idx.suggest_geo("san-fran", 8).unwrap(), vec![place]);
}
