# geo_trie_rs

A prefix-autocomplete index over a finite state transducer, verified with Verus.

Normalized string keys lead to records: a `group` (results of one group are shown once), a
`rank` (higher is shown first) and an opaque `payload`. The engine knows no domain; places are
one adapter over it.

Two artifacts are written once and read many times:

* `index.fst` maps each key to the number of a postings entry. It is written and scanned by the
  `fst` crate.
* `records.bin` holds the postings entries and the records. Its layout is at the top of
  `src/records.rs`.

## Layout

| Where | What |
|---|---|
| `src/normalize.rs` | folding names and queries into keys |
| `src/builder.rs`, `src/table.rs`, `src/blob.rs` | gathering records and links, and writing the artifacts |
| `src/records.rs`, `src/bytes.rs` | reading `records.bin` |
| `src/index.rs`, `src/search.rs` | answering queries |
| `src/ranking.rs`, `src/order.rs` | which records are shown, and in what order |
| `src/distance.rs`, `src/edits.rs` | the distance that a fuzzy query tolerates |
| `src/geo.rs`, `src/tsv.rs`, `src/decimal.rs`, `src/text.rs` | places, and the table they come from |
| `src/guarantees.rs` | what holds of building, opening and asking together |
| `src/transducer.rs`, `src/unicode.rs` | what is relied on of `fst`, of `unicode-normalization` and of the standard library |
| `app/` | the `build-index` program, the mapped index and the Python module |

## Building an index

```sh
build-index cities.tsv ./geo-index
# -> ./geo-index/index.fst  ./geo-index/records.bin
```

The columns are `gid  name  lat  lon  country  population  feature_code  keys`, separated by
tabs; `keys` is a `|`-separated list of raw names and defaults to `name`. Lines that are empty
or start with `#` are skipped.
