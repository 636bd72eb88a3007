//! From a table of places to answers.
use geo_trie_rs::tsv::{
    build_table, check_lines, split_columns, Artifacts, Line, LineError, TableError,
};
use geo_trie_rs::{GeoRecord, Index, IndexBuilder};

/// The bits of the number in a column.
fn bits(columns: &[String], column: usize) -> Option<u64> {
    let text = columns.get(column)?;
    text.parse::<f64>().ok().map(f64::to_bits)
}

/// The lines of a table with their coordinates.
fn lines(table: &str) -> Vec<Line> {
    table
        .lines()
        .map(|text| {
            let columns = split_columns(text).unwrap_or_default();
            let (lat_bits, lon_bits) = (bits(&columns, 2), bits(&columns, 3));
            Line { text: text.to_string(), lat_bits, lon_bits }
        })
        .collect()
}

/// Reads a table and builds the artifacts.
fn try_build(table: &str) -> Result<Artifacts, TableError> {
    let lines = lines(table);
    assert!(check_lines(&lines));
    build_table(&lines)
}

/// Builds the two artifacts from a table.
fn build(table: &str) -> (Vec<u8>, Vec<u8>) {
    let built = try_build(table).ok().unwrap();
    (built.fst, built.records)
}

const FILLER: u64 = 1000;

/// A table of `FILLER` towns, a "zenith" cluster that shares a name, and a "Metropolis" with
/// several names.
fn dataset() -> String {
    let mut s = String::from("# generated\n");
    for i in 0..FILLER {
        let gid = 1_000_000 + i;
        let name = format!("Town{i:05}");
        let pop = (i.wrapping_mul(2_654_435_761) % 1_000_000) as i64;
        let country = ["US", "DE", "FR", "RU"][(i % 4) as usize];
        let lat = (i % 180) as f64 - 90.0;
        let lon = (i % 360) as f64 - 180.0;
        s.push_str(&format!(
            "{gid}\t{name}\t{lat}\t{lon}\t{country}\t{pop}\tPPL\t{name}\n"
        ));
    }
    // Known cluster: three places share the "zenith" alias, distinct populations.
    for (gid, name, pop) in [
        (9_000_001u64, "Zenith Alpha", 900_000i64),
        (9_000_002, "Zenith Beta", 500_000),
        (9_000_003, "Zenith Gamma", 100_000),
    ] {
        s.push_str(&format!(
            "{gid}\t{name}\t0\t0\tXX\t{pop}\tPPLC\t{name}|zenith\n"
        ));
    }
    // One place reachable via several aliases -> must dedup to a single hit.
    s.push_str("9100000\tMetropolis\t0\t0\tXX\t250000\tPPLC\tMetropolis|metro|метрополис\n");
    s
}

#[test]
fn full_pipeline_scale_ranking_and_dedup() {
    let (fst, records) = build(&dataset());
    let idx = Index::from_bytes(fst, records).unwrap();

    // FILLER towns + 3 zenith + 1 metropolis.
    assert_eq!(idx.len() as u64, FILLER + 4);

    // Shared alias "zenith" -> three places, deduped, ranked by population desc.
    let names: Vec<String> = idx
        .suggest_geo("zenith", 10)
        .unwrap()
        .into_iter()
        .map(|r| r.name)
        .collect();
    assert_eq!(names, vec!["Zenith Alpha", "Zenith Beta", "Zenith Gamma"]);

    // Alias dedup: "metro" reaches Metropolis via two keys but yields one hit.
    let metro = idx.suggest_geo("metro", 10).unwrap();
    assert_eq!(metro.len(), 1);
    assert_eq!(metro[0].gid, 9_100_000);

    // Large fan-out with a limit: results are capped and sorted by population desc.
    let top = idx.suggest_geo("town", 5).unwrap();
    assert_eq!(top.len(), 5);
    for w in top.windows(2) {
        assert!(w[0].population >= w[1].population);
    }

    // A guaranteed miss.
    assert!(idx.suggest_geo("nonexistentplace", 10).unwrap().is_empty());
}

#[test]
fn build_is_deterministic() {
    let (fst_a, rec_a) = build(&dataset());
    let (fst_b, rec_b) = build(&dataset());
    assert_eq!(fst_a, fst_b);
    assert_eq!(rec_a, rec_b);
}

#[test]
fn independent_opens_agree_and_core_matches_adapter() {
    let (fst, rec) = build(&dataset());

    // Two independent opens over the same bytes must agree.
    let idx1 = Index::from_bytes(fst.as_slice(), rec.as_slice()).unwrap();
    let idx2 = Index::from_bytes(fst.as_slice(), rec.as_slice()).unwrap();

    for q in ["zenith", "town000", "metro", "z"] {
        let a: Vec<_> = idx1.suggest_geo(q, 8).unwrap();
        let b: Vec<_> = idx2.suggest_geo(q, 8).unwrap();
        assert_eq!(a, b);

        // What suggest() returns, decoded, must equal what suggest_geo() returns.
        let via_core: Vec<GeoRecord> = idx1
            .suggest(q, 8)
            .unwrap()
            .iter()
            .map(|r| GeoRecord::from_record(r).unwrap())
            .collect();
        assert_eq!(via_core, a);
    }
}

#[test]
fn cli_skips_comments_and_blank_lines() {
    let tsv = "# header comment\n\
               2950159\tBerlin\t52.5\t13.4\tDE\t3426354\tPPLC\tBerlin\n\
               \n\
               # another comment\n\
               2988507\tParis\t48.8\t2.3\tFR\t2138551\tPPLC\tParis\n";
    let (fst, records) = build(tsv);
    let idx = Index::from_bytes(fst, records).unwrap();
    assert_eq!(idx.len(), 2);
    assert_eq!(idx.suggest_geo("par", 8).unwrap()[0].name, "Paris");
}

#[test]
fn cli_empty_keys_column_defaults_to_name() {
    // Exactly 7 columns (no keys column) -> record is indexed under its name.
    let tsv = "2950159\tBerlin\t52.5\t13.4\tDE\t3426354\tPPLC\n";
    let (fst, records) = build(tsv);
    let idx = Index::from_bytes(fst, records).unwrap();
    assert_eq!(idx.suggest_geo("berl", 8).unwrap()[0].name, "Berlin");
}

#[test]
fn cli_rejects_too_few_columns() {
    let message = try_build("2950159\tBerlin\t52.5\n").err().unwrap().message();
    assert!(message.contains("line 1"));
    assert_eq!(message, "line 1: expected >=7 tab-separated columns, got 3");
}

#[test]
fn cli_rejects_non_numeric_population() {
    let message = try_build("2950159\tBerlin\t52.5\t13.4\tDE\tlots\tPPLC\tBerlin\n")
        .err()
        .unwrap()
        .message();
    assert!(message.contains("population"));
    assert_eq!(message, "line 1: bad population");
}

#[test]
fn the_first_bad_line_is_reported_and_what_came_before_it_stays() {
    let table = "# places\n1\tA\t0\t0\tXX\t1\tPPL\n\n2\tB\t0\tx\tXX\t1\tPPL\n3\tC\n";
    let error = try_build(table).err().unwrap();
    assert_eq!(error, TableError::BadLine(4, LineError::BadLon));
    assert_eq!(error.message(), "line 4: bad lon");
    let mut b = IndexBuilder::new();
    assert_eq!(b.add_lines(&lines(table)).unwrap_err(), (4, LineError::BadLon));
    assert_eq!(b.n_records(), 1);
    assert_eq!(b.n_links(), 1);
}

#[test]
fn skipped_lines_and_line_ends_do_not_show_in_the_artifacts() {
    let plain = "1\tA\t0\t0\tXX\t1\tPPL\tA|B\n2\tC\t0\t0\tXX\t1\tPPL\n";
    let busy = "# x\n1\tA\t0\t0\tXX\t1\tPPL\tA|B\n\n#\n2\tC\t0\t0\tXX\t1\tPPL\n# y\n";
    let (a, b) = (try_build(plain).ok().unwrap(), try_build(busy).ok().unwrap());
    assert_eq!((a.fst, a.records), (b.fst, b.records));
    assert_eq!((a.n_links, a.n_records), (3, 2));
    assert_eq!((b.n_links, b.n_records), (3, 2));
}

#[test]
fn an_overlong_field_cannot_be_stored_unless_a_bad_line_comes_first() {
    let long = format!("1\t{}\t0\t0\tXX\t1\tPPL\n", "x".repeat(65536));
    assert!(!check_lines(&lines(&long)));
    assert!(!check_lines(&lines(&format!("# x\n{long}"))));
    assert!(check_lines(&lines(&format!("1\tA\n{long}"))));
}
