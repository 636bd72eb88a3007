//! What is gathered of a line of the table of places, said of its text.
use vstd::prelude::*;
use vstd::utf8::encode_utf8;

use crate::builder::Gathered;
use crate::decimal::{i64_of, u64_of};
use crate::geo::GeoView;
use crate::guarantees::lemma_filter_contains;
use crate::normalize::normalized;
use crate::text::{cut_at, law_piece, law_piece_stands_in_the_text};
use crate::tsv::{
    all_sound, columns_of, folded_keys, lines_fit, lines_read, place_of, raw_keys, with_place,
    without_line_end, LineError, LineView,
};

verus! {

/// Line ends behind a line are dropped, however many, and nothing else.
pub proof fn law_line_ends_are_dropped(text: Seq<char>, ends: Seq<char>)
    requires
        text.len() == 0 || (text.last() != '\r' && text.last() != '\n'),
        forall|i: int| 0 <= i < ends.len() ==> #[trigger] ends[i] == '\r' || ends[i] == '\n',
    ensures
        without_line_end(text + ends) == text,
    decreases ends.len(),
{
    let line = text + ends;
    if ends.len() == 0 {
        assert(line =~= text);
    } else {
        assert(line.last() == ends[ends.len() - 1]);
        assert(line.drop_last() =~= text + ends.drop_last());
        law_line_ends_are_dropped(text, ends.drop_last());
    }
}

/// A line is skipped just where nothing is left of it without its line ends, or it starts with
/// `#`; any other is cut at its tabs.
pub proof fn law_columns_of_a_line(text: Seq<char>, ends: Seq<char>)
    requires
        text.len() == 0 || (text.last() != '\r' && text.last() != '\n'),
        forall|i: int| 0 <= i < ends.len() ==> #[trigger] ends[i] == '\r' || ends[i] == '\n',
    ensures
        columns_of(text + ends) == (if text.len() == 0 || text[0] == '#' {
            None::<Seq<Seq<char>>>
        } else {
            Some(cut_at(text, '\t'))
        }),
{
    law_line_ends_are_dropped(text, ends);
}

/// Which columns a place is read from, and what is wrong where none is.
pub proof fn law_place_of_columns(
    columns: Seq<Seq<char>>,
    lat_bits: Option<u64>,
    lon_bits: Option<u64>,
)
    ensures
        match place_of(columns, lat_bits, lon_bits) {
            Ok((place, _)) => {
                &&& columns.len() >= 7
                &&& u64_of(columns[0]) == Some(place.gid)
                &&& place.name == columns[1]
                &&& lat_bits == Some(place.lat_bits)
                &&& lon_bits == Some(place.lon_bits)
                &&& place.country == columns[4]
                &&& i64_of(columns[5]) == Some(place.population)
                &&& place.feature_code == columns[6]
            },
            Err(LineError::TooFewColumns(n)) => columns.len() < 7 && n == columns.len() as usize,
            Err(LineError::BadGid) => columns.len() >= 7 && u64_of(columns[0]) is None,
            Err(LineError::BadLat) => columns.len() >= 7 && u64_of(columns[0]) is Some
                && lat_bits is None,
            Err(LineError::BadLon) => columns.len() >= 7 && u64_of(columns[0]) is Some
                && lat_bits is Some && lon_bits is None,
            Err(LineError::BadPopulation) => columns.len() >= 7 && u64_of(columns[0]) is Some
                && lat_bits is Some && lon_bits is Some && i64_of(columns[5]) is None,
        },
{
}

/// The raw names of a place: every piece of the eighth column between bars that is not empty,
/// and no other text; or its name, where there is no eighth column or nothing in it.
pub proof fn law_names_are_the_pieces(columns: Seq<Seq<char>>, name: Seq<char>)
    ensures
        columns.len() < 8 || columns[7].len() == 0 ==> (raw_keys(columns).contains(name) <==> name
            == columns[1]) && raw_keys(columns).len() == 1,
        columns.len() >= 8 && columns[7].len() > 0 ==> (raw_keys(columns).contains(name) <==> {
            &&& name.len() > 0
            &&& !name.contains('|')
            &&& exists|x: Seq<char>, y: Seq<char>|
                columns[7] == #[trigger] (x + name + y) && (x.len() == 0 || x.last() == '|') && (
                y.len() == 0 || y[0] == '|')
        }),
{
    let names = raw_keys(columns);
    if columns.len() < 8 || columns[7].len() == 0 {
        assert(names[0] == columns[1]);
    } else {
        let column = columns[7];
        let pieces = cut_at(column, '|');
        let keep = |key: Seq<char>| key.len() > 0;
        lemma_filter_contains(pieces, keep);
        if names.contains(name) {
            assert(pieces.contains(name) && keep(name));
            let i = choose|i: int| 0 <= i < pieces.len() && pieces[i] == name;
            law_piece_stands_in_the_text(column, i, '|');
        }
        if name.len() > 0 && !name.contains('|') && exists|x: Seq<char>, y: Seq<char>|
            column == #[trigger] (x + name + y) && (x.len() == 0 || x.last() == '|') && (y.len()
                == 0 || y[0] == '|') {
            let (x, y) = choose|x: Seq<char>, y: Seq<char>|
                column == #[trigger] (x + name + y) && (x.len() == 0 || x.last() == '|') && (
                y.len() == 0 || y[0] == '|');
            law_piece(x, name, y, '|');
            assert(keep(name));
        }
    }
}

/// The raw names stand in the order of the column, each as often as it stands there.
pub proof fn law_names_stand_in_order(columns: Seq<Seq<char>>)
    requires
        columns.len() >= 8,
        columns[7].len() > 0,
    ensures
        raw_keys(columns) == cut_at(columns[7], '|').filter(|key: Seq<char>| key.len() > 0),
{
}

/// The keys of names: one name after the other, each its key, or none where it folds to
/// nothing.
pub proof fn law_keys_of_names(a: Seq<Seq<char>>, b: Seq<Seq<char>>, name: Seq<char>)
    ensures
        folded_keys(a + b) == folded_keys(a) + folded_keys(b),
        folded_keys(seq![name]) == (if normalized(name).len() == 0 {
            Seq::empty()
        } else {
            seq![normalized(name)]
        }),
    decreases b.len(),
{
    reveal_with_fuel(folded_keys, 2);
    assert(seq![name].drop_last() =~= Seq::<Seq<char>>::empty());
    assert(folded_keys(seq![name]) =~= (if normalized(name).len() == 0 {
        Seq::empty()
    } else {
        seq![normalized(name)]
    }));
    if b.len() == 0 {
        assert(a + b =~= a);
        assert(folded_keys(a) + folded_keys(b) =~= folded_keys(a));
    } else {
        law_keys_of_names(a, b.drop_last(), name);
        assert((a + b).drop_last() =~= a + b.drop_last());
        assert(folded_keys(a + b) =~= folded_keys(a) + folded_keys(b));
    }
}

/// A key is among those of some names just where one of the names folds to it, and to
/// something.
pub proof fn law_key_of_some_name(names: Seq<Seq<char>>, key: Seq<char>)
    ensures
        folded_keys(names).contains(key) <==> key.len() > 0 && exists|i: int|
            0 <= i < names.len() && normalized(#[trigger] names[i]) == key,
    decreases names.len(),
{
    if names.len() > 0 {
        let front = names.drop_last();
        let keys = folded_keys(names);
        let before = folded_keys(front);
        law_key_of_some_name(front, key);
        assert(names[names.len() - 1] == names.last());
        if keys.contains(key) {
            let k = choose|k: int| 0 <= k < keys.len() && keys[k] == key;
            if k < before.len() {
                assert(before[k] == key);
                assert(before.contains(key));
                let i = choose|i: int|
                    0 <= i < front.len() && normalized(#[trigger] front[i]) == key;
                assert(normalized(names[i]) == key);
            }
        }
        if key.len() > 0 && exists|i: int|
            0 <= i < names.len() && normalized(#[trigger] names[i]) == key {
            let i = choose|i: int| 0 <= i < names.len() && normalized(#[trigger] names[i]) == key;
            if i < front.len() {
                assert(normalized(front[i]) == key);
                assert(before.contains(key));
                let k = choose|k: int| 0 <= k < before.len() && before[k] == key;
                assert(keys[k] == key);
            } else {
                assert(keys[before.len() as int] == key);
            }
        }
    }
}

/// What a place adds: its record, under the next id, and a link for each of its keys; those of
/// its raw names, or that of its own name where they have none.
pub proof fn law_what_a_place_adds(before: Gathered, place: GeoView, names: Seq<Seq<char>>)
    ensures
        ({
            let after = with_place(before, place, names);
            let keys = if folded_keys(names).len() > 0 {
                folded_keys(names)
            } else {
                folded_keys(seq![place.name])
            };
            let id = (before.records.len() as int % 0x1_0000_0000) as u32;
            &&& after.records == before.records.push(place.encoded())
            &&& after.links.len() == before.links.len() + keys.len()
            &&& forall|i: int|
                0 <= i < before.links.len() ==> #[trigger] after.links[i] == before.links[i]
            &&& forall|i: int|
                0 <= i < keys.len() ==> after.links[before.links.len() + i] == (
                    encode_utf8(#[trigger] keys[i]),
                    id,
                )
        }),
{
}

/// Every piece of the names column that folds to a key leads to the place of the line.
pub proof fn law_every_name_leads_to_the_place(
    before: Gathered,
    columns: Seq<Seq<char>>,
    lat_bits: Option<u64>,
    lon_bits: Option<u64>,
    x: Seq<char>,
    piece: Seq<char>,
    y: Seq<char>,
)
    requires
        place_of(columns, lat_bits, lon_bits) is Ok,
        columns.len() >= 8,
        columns[7] == x + piece + y,
        !piece.contains('|'),
        x.len() == 0 || x.last() == '|',
        y.len() == 0 || y[0] == '|',
        piece.len() > 0,
        normalized(piece).len() > 0,
    ensures
        ({
            let (place, names) = place_of(columns, lat_bits, lon_bits)->Ok_0;
            with_place(before, place, names).links.contains(
                (
                    encode_utf8(normalized(piece)),
                    (before.records.len() as int % 0x1_0000_0000) as u32,
                ),
            )
        }),
{
    let (place, names) = place_of(columns, lat_bits, lon_bits)->Ok_0;
    law_names_are_the_pieces(columns, piece);
    assert(names.contains(piece));
    let i = choose|i: int| 0 <= i < names.len() && names[i] == piece;
    assert(normalized(names[i]) == normalized(piece));
    law_key_of_some_name(names, normalized(piece));
    let keys = folded_keys(names);
    let k = choose|k: int| 0 <= k < keys.len() && keys[k] == normalized(piece);
    law_what_a_place_adds(before, place, names);
    let after = with_place(before, place, names);
    assert(after.links[before.links.len() + k] == (
        encode_utf8(keys[k]),
        (before.records.len() as int % 0x1_0000_0000) as u32,
    ));
}

/// Nothing else leads to the place of the line: every link that it adds is from the key of a
/// piece of the names column, or from that of its own name.
pub proof fn law_no_other_name_leads_to_the_place(
    before: Gathered,
    columns: Seq<Seq<char>>,
    lat_bits: Option<u64>,
    lon_bits: Option<u64>,
    i: int,
)
    requires
        place_of(columns, lat_bits, lon_bits) is Ok,
        ({
            let (place, names) = place_of(columns, lat_bits, lon_bits)->Ok_0;
            before.links.len() <= i < with_place(before, place, names).links.len()
        }),
    ensures
        ({
            let (place, names) = place_of(columns, lat_bits, lon_bits)->Ok_0;
            let link = with_place(before, place, names).links[i];
            &&& link.1 as int == before.records.len() as int % 0x1_0000_0000
            &&& exists|name: Seq<char>|
                link.0 == encode_utf8(#[trigger] normalized(name)) && normalized(name).len() > 0
                    && {
                    ||| name == columns[1]
                    ||| columns.len() >= 8 && name.len() > 0 && !name.contains('|') && exists|
                        x: Seq<char>,
                        y: Seq<char>,
                    |
                        columns[7] == #[trigger] (x + name + y) && (x.len() == 0 || x.last() == '|')
                            && (y.len() == 0 || y[0] == '|')
                }
        }),
{
    let (place, names) = place_of(columns, lat_bits, lon_bits)->Ok_0;
    law_what_a_place_adds(before, place, names);
    let own = folded_keys(names).len() == 0;
    let keys = if own {
        folded_keys(seq![place.name])
    } else {
        folded_keys(names)
    };
    let k = i - before.links.len();
    let after = with_place(before, place, names);
    assert(after.links[before.links.len() + k] == (
        encode_utf8(keys[k]),
        (before.records.len() as int % 0x1_0000_0000) as u32,
    ));
    assert(keys.contains(keys[k]));
    if own {
        law_key_of_some_name(seq![place.name], keys[k]);
        assert(normalized(columns[1]) == keys[k]);
    } else {
        law_key_of_some_name(names, keys[k]);
        let n = choose|n: int| 0 <= n < names.len() && normalized(#[trigger] names[n]) == keys[k];
        let name = names[n];
        assert(names.contains(name));
        law_names_are_the_pieces(columns, name);
        assert(after.links[i].0 == encode_utf8(normalized(name)));
    }
}

/// One line: skipped where it holds no data, a failure where something is wrong with it, and
/// else its place is added.
pub proof fn law_one_line(before: Gathered, line: LineView)
    ensures
        lines_read(before, seq![line]) == (match columns_of(line.text) {
            None => Ok::<Gathered, (nat, LineError)>(before),
            Some(columns) => match place_of(columns, line.lat_bits, line.lon_bits) {
                Ok((place, names)) => Ok(with_place(before, place, names)),
                Err(e) => Err((1nat, e)),
            },
        }),
{
    reveal_with_fuel(lines_read, 2);
    assert(seq![line].drop_last() =~= Seq::<LineView>::empty());
}

/// Lines are read one after the other, and counted from the first.
pub proof fn law_lines_one_after_the_other(before: Gathered, a: Seq<LineView>, b: Seq<LineView>)
    ensures
        lines_read(before, Seq::empty()) == Ok::<Gathered, (nat, LineError)>(before),
        lines_read(before, a + b) == (match lines_read(before, a) {
            Err(e) => Err::<Gathered, (nat, LineError)>(e),
            Ok(g) => match lines_read(g, b) {
                Ok(after) => Ok(after),
                Err((n, e)) => Err((a.len() + n, e)),
            },
        }),
    decreases b.len(),
{
    if b.len() == 0 {
        assert(a + b =~= a);
    } else {
        law_lines_one_after_the_other(before, a, b.drop_last());
        assert((a + b).drop_last() =~= a + b.drop_last());
    }
}

/// A table can be stored where the country, the feature code and the name of every place in it
/// have no more than 65535 bytes.
pub proof fn law_tables_that_fit(lines: Seq<LineView>)
    requires
        forall|i: int|
            0 <= i < lines.len() && columns_of((#[trigger] lines[i]).text) is Some && place_of(
                columns_of(lines[i].text)->Some_0,
                lines[i].lat_bits,
                lines[i].lon_bits,
            ) is Ok ==> {
                let columns = columns_of(lines[i].text)->Some_0;
                &&& encode_utf8(columns[1]).len() <= 65535
                &&& encode_utf8(columns[4]).len() <= 65535
                &&& encode_utf8(columns[6]).len() <= 65535
            },
    ensures
        lines_fit(lines),
{
    assert forall|i: int| 0 <= i < lines.len() implies (#[trigger] lines[i]).fits() by {
        let line = lines[i];
        if line.holds_data() && line.place() is Ok {
            law_place_of_columns(columns_of(line.text)->Some_0, line.lat_bits, line.lon_bits);
        }
    }
}

/// A table cannot be stored where one of the three has more in a place that is come to.
pub proof fn law_tables_that_do_not_fit(lines: Seq<LineView>, i: int)
    requires
        0 <= i < lines.len(),
        all_sound(lines.take(i)),
        columns_of(lines[i].text) is Some,
        place_of(columns_of(lines[i].text)->Some_0, lines[i].lat_bits, lines[i].lon_bits) is Ok,
        ({
            let columns = columns_of(lines[i].text)->Some_0;
            encode_utf8(columns[1]).len() > 65535 || encode_utf8(columns[4]).len() > 65535
                || encode_utf8(columns[6]).len() > 65535
        }),
    ensures
        !lines_fit(lines),
{
    law_place_of_columns(
        columns_of(lines[i].text)->Some_0,
        lines[i].lat_bits,
        lines[i].lon_bits,
    );
    assert(!lines[i].fits());
}

} // verus!
