//! The table of places that an index is built from.
//!
//! Columns, tab-separated: `gid  name  lat  lon  country  population  feature_code  keys`.
//! Lines that are empty or start with `#` are skipped. `keys` is a `|`-separated list of raw
//! names to find the place under; where it is missing or empty, `name` takes its place.
//!
//! The two coordinates come in as the bits of the numbers in their columns, or as nothing
//! where a column holds no number.
use vstd::prelude::*;
use vstd::utf8::encode_utf8;

use crate::builder::{keys_are_text, numbered, Gathered, IndexBuilder};
use crate::decimal::{decimal_of, i64_of, parse_i64, parse_u64, u64_of, write_decimal};
use crate::error::IndexError;
use crate::geo::{GeoRecord, GeoView};
use crate::intake::law_names_are_the_pieces;
use crate::normalize::{normalize, normalized};
use crate::records::header_fault;
use crate::table::LinkView;
use crate::text::{chars_of, cut_at, split_text, string_of, texts};
use crate::transducer::{fst_entries, looks_like_fst, trailer_fits};

verus! {

/// The number of columns that a line must have.
pub const MIN_COLUMNS: usize = 7;

/// What is wrong with a line.
#[derive(Debug, Clone, Copy, PartialEq, Eq, Structural)]
pub enum LineError {
    /// The line has too few columns: this many.
    TooFewColumns(usize),
    /// The first column is no `u64`.
    BadGid,
    /// The third column is no number.
    BadLat,
    /// The fourth column is no number.
    BadLon,
    /// The sixth column is no `i64`.
    BadPopulation,
}

impl LineError {
    /// What an error says.
    pub open spec fn text(self) -> Seq<char> {
        match self {
            LineError::TooFewColumns(n) => "expected >="@ + decimal_of(MIN_COLUMNS as nat)
                + " tab-separated columns, got "@ + decimal_of(n as nat),
            LineError::BadGid => "bad gid"@,
            LineError::BadLat => "bad lat"@,
            LineError::BadLon => "bad lon"@,
            LineError::BadPopulation => "bad population"@,
        }
    }

    /// What this error says.
    pub fn message(&self) -> (message: String)
        ensures
            message@ == self.text(),
    {
        match self {
            LineError::TooFewColumns(n) => {
                let mut message = "expected >=".to_owned();
                message.append(write_decimal(MIN_COLUMNS as u64).as_str());
                message.append(" tab-separated columns, got ");
                message.append(write_decimal(*n as u64).as_str());
                message
            },
            LineError::BadGid => "bad gid".to_owned(),
            LineError::BadLat => "bad lat".to_owned(),
            LineError::BadLon => "bad lon".to_owned(),
            LineError::BadPopulation => "bad population".to_owned(),
        }
    }

    /// What an error says of the line of that number.
    pub open spec fn text_at(self, line: nat) -> Seq<char> {
        "line "@ + decimal_of(line) + ": "@ + self.text()
    }

    /// What this error says of the line of that number.
    pub fn message_at(&self, line: u64) -> (message: String)
        ensures
            message@ == self.text_at(line as nat),
    {
        let mut message = "line ".to_owned();
        message.append(write_decimal(line).as_str());
        message.append(": ");
        message.append(self.message().as_str());
        message
    }
}

/// A line without the line ends behind it.
pub open spec fn without_line_end(line: Seq<char>) -> Seq<char>
    decreases line.len(),
{
    if line.len() > 0 && (line.last() == '\r' || line.last() == '\n') {
        without_line_end(line.drop_last())
    } else {
        line
    }
}

/// The columns of a line, or nothing where the line is to be skipped.
pub open spec fn columns_of(line: Seq<char>) -> Option<Seq<Seq<char>>> {
    let text = without_line_end(line);
    if text.len() == 0 || text[0] == '#' {
        None
    } else {
        Some(cut_at(text, '\t'))
    }
}

/// The raw names that the columns of a line give to a place.
pub open spec fn raw_keys(columns: Seq<Seq<char>>) -> Seq<Seq<char>> {
    if columns.len() <= 7 || columns[7].len() == 0 {
        seq![columns[1]]
    } else {
        cut_at(columns[7], '|').filter(|key: Seq<char>| key.len() > 0)
    }
}

/// The place that the columns of a line stand for, and its raw names; or the first thing
/// that is wrong, from the left.
pub open spec fn place_of(
    columns: Seq<Seq<char>>,
    lat_bits: Option<u64>,
    lon_bits: Option<u64>,
) -> Result<(GeoView, Seq<Seq<char>>), LineError> {
    if columns.len() < MIN_COLUMNS {
        Err(LineError::TooFewColumns(columns.len() as usize))
    } else {
        match (u64_of(columns[0]), lat_bits, lon_bits, i64_of(columns[5])) {
            (None, _, _, _) => Err(LineError::BadGid),
            (_, None, _, _) => Err(LineError::BadLat),
            (_, _, None, _) => Err(LineError::BadLon),
            (_, _, _, None) => Err(LineError::BadPopulation),
            (Some(gid), Some(lat_bits), Some(lon_bits), Some(population)) => Ok(
                (
                    GeoView {
                        gid,
                        lat_bits,
                        lon_bits,
                        population,
                        country: columns[4],
                        feature_code: columns[6],
                        name: columns[1],
                    },
                    raw_keys(columns),
                ),
            ),
        }
    }
}

/// The keys that raw names are found under; names that fold to nothing have none.
pub open spec fn folded_keys(names: Seq<Seq<char>>) -> Seq<Seq<char>>
    decreases names.len(),
{
    if names.len() == 0 {
        Seq::empty()
    } else {
        let front = folded_keys(names.drop_last());
        let key = normalized(names.last());
        if key.len() == 0 {
            front
        } else {
            front.push(key)
        }
    }
}

/// The keys that a place is found under: those of its raw names, or, where they have none,
/// that of its own name.
pub open spec fn place_keys(name: Seq<char>, names: Seq<Seq<char>>) -> Seq<Seq<char>> {
    let keys = folded_keys(names);
    if keys.len() > 0 {
        keys
    } else {
        folded_keys(seq![name])
    }
}

/// Links from keys to one record.
pub open spec fn links_to(keys: Seq<Seq<char>>, id: u32) -> Seq<LinkView> {
    keys.map_values(|key: Seq<char>| (encode_utf8(key), id))
}

/// What has been gathered once a place has been added.
pub open spec fn with_place(before: Gathered, place: GeoView, names: Seq<Seq<char>>) -> Gathered {
    Gathered {
        records: before.records.push(place.encoded()),
        links: before.links + links_to(
            place_keys(place.name, names),
            (before.records.len() as int % 0x1_0000_0000) as u32,
        ),
    }
}

/// A place whose name folds to a key is linked, whatever its other names fold to.
pub proof fn law_place_is_linked(before: Gathered, place: GeoView, names: Seq<Seq<char>>)
    requires
        normalized(place.name).len() > 0,
    ensures
        with_place(before, place, names).links.len() > before.links.len(),
        with_place(before, place, names).links.last().1 as int == before.records.len() as int
            % 0x1_0000_0000,
{
    reveal_with_fuel(folded_keys, 2);
    assert(seq![place.name].drop_last() =~= Seq::<Seq<char>>::empty());
    assert(folded_keys(seq![place.name]).len() == 1);
}

/// Cuts a line into columns; nothing where the line is to be skipped.
pub fn split_columns(line: &str) -> (columns: Option<Vec<String>>)
    ensures
        match (columns, columns_of(line@)) {
            (Some(found), Some(expected)) => texts(found@) == expected,
            (None, None) => true,
            _ => false,
        },
{
    let chars = chars_of(line);
    let mut end: usize = chars.len();
    assert(chars@.take(end as int) =~= chars@);
    while end > 0 && (chars[end - 1] == '\r' || chars[end - 1] == '\n')
        invariant
            end <= chars@.len(),
            without_line_end(chars@.take(end as int)) == without_line_end(line@),
        decreases end,
    {
        assert(chars@.take(end as int).drop_last() =~= chars@.take(end - 1));
        end -= 1;
    }
    assert(without_line_end(chars@.take(end as int)) == chars@.take(end as int));
    if end == 0 || chars[0] == '#' {
        return None;
    }
    let text = string_of(&chars, end);
    Some(split_text(text.as_str(), '\t'))
}

/// The names that are not empty.
fn keep_names(names: Vec<String>) -> (kept: Vec<String>)
    ensures
        texts(kept@) == texts(names@).filter(|key: Seq<char>| key.len() > 0),
{
    let ghost all = names@;
    let ghost keep = |key: Seq<char>| key.len() > 0;
    let mut kept: Vec<String> = Vec::new();
    proof {
        reveal(Seq::filter);
        assert(texts(all).take(0) =~= Seq::<Seq<char>>::empty());
        assert(texts(kept@) =~= texts(all).take(0).filter(keep));
    }
    for name in it: names
        invariant
            it.seq() == all,
            keep == (|key: Seq<char>| key.len() > 0),
            texts(kept@) == texts(all).take(it.index()).filter(keep),
    {
        let ghost before = kept@;
        proof {
            reveal(Seq::filter);
            assert(texts(all)[it.index()] == name@);
            assert(texts(all).take(it.index() + 1).drop_last() =~= texts(all).take(it.index()));
        }
        if !name.as_str().is_empty() {
            kept.push(name);
            assert(texts(kept@) =~= texts(before).push(name@));
        }
    }
    assert(texts(all).take(all.len() as int) =~= texts(all));
    kept
}

/// Reads the columns of a line as a place and its raw names.
pub fn parse_line(
    columns: &Vec<String>,
    lat_bits: Option<u64>,
    lon_bits: Option<u64>,
) -> (r: Result<(GeoRecord, Vec<String>), LineError>)
    ensures
        match (r, place_of(texts(columns@), lat_bits, lon_bits)) {
            (Ok((place, names)), Ok((expected, raw))) => place@ == expected && texts(names@) == raw,
            (Err(e), Err(f)) => e == f,
            _ => false,
        },
        r is Ok && columns@.len() > 7 && columns@[7]@.len() > 0 ==> forall|name: Seq<char>|
            #[trigger] texts(r->Ok_0.1@).contains(name) <==> {
                &&& name.len() > 0
                &&& !name.contains('|')
                &&& exists|x: Seq<char>, y: Seq<char>|
                    columns@[7]@ == #[trigger] (x + name + y) && (x.len() == 0 || x.last() == '|')
                        && (y.len() == 0 || y[0] == '|')
            },
{
    let ghost cols = texts(columns@);
    proof {
        assert forall|name: Seq<char>| cols.len() > 7 && cols[7].len() > 0 implies (
        #[trigger] raw_keys(cols).contains(name) <==> {
            &&& name.len() > 0
            &&& !name.contains('|')
            &&& exists|x: Seq<char>, y: Seq<char>|
                cols[7] == #[trigger] (x + name + y) && (x.len() == 0 || x.last() == '|') && (
                y.len() == 0 || y[0] == '|')
        }) by {
            law_names_are_the_pieces(cols, name);
        }
    }
    if columns.len() < MIN_COLUMNS {
        return Err(LineError::TooFewColumns(columns.len()));
    }
    let gid: u64 = match parse_u64(columns[0].as_str()) {
        Some(gid) => gid,
        None => {
            return Err(LineError::BadGid);
        },
    };
    let lat_bits: u64 = match lat_bits {
        Some(bits) => bits,
        None => {
            return Err(LineError::BadLat);
        },
    };
    let lon_bits: u64 = match lon_bits {
        Some(bits) => bits,
        None => {
            return Err(LineError::BadLon);
        },
    };
    let population: i64 = match parse_i64(columns[5].as_str()) {
        Some(population) => population,
        None => {
            return Err(LineError::BadPopulation);
        },
    };
    let place = GeoRecord {
        gid,
        lat_bits,
        lon_bits,
        population,
        country: columns[4].clone(),
        feature_code: columns[6].clone(),
        name: columns[1].clone(),
    };
    if columns.len() <= 7 || columns[7].as_str().is_empty() {
        let mut names: Vec<String> = Vec::new();
        names.push(columns[1].clone());
        assert(texts(names@) =~= seq![cols[1]]);
        return Ok((place, names));
    }
    Ok((place, keep_names(split_text(columns[7].as_str(), '|'))))
}

/// The keys of some names.
fn fold_names(names: &Vec<String>) -> (keys: Vec<String>)
    ensures
        texts(keys@) == folded_keys(texts(names@)),
{
    let ghost raw = texts(names@);
    let mut keys: Vec<String> = Vec::new();
    assert(raw.take(0) =~= Seq::<Seq<char>>::empty());
    assert(texts(keys@) =~= folded_keys(raw.take(0)));
    for i in 0..names.len()
        invariant
            raw == texts(names@),
            texts(keys@) == folded_keys(raw.take(i as int)),
    {
        let ghost before = keys@;
        proof {
            assert(raw.take(i + 1).drop_last() =~= raw.take(i as int));
            assert(raw.take(i + 1).last() == names@[i as int]@);
        }
        let key = normalize(names[i].as_str());
        if !key.as_str().is_empty() {
            keys.push(key);
            assert(texts(keys@) =~= texts(before).push(key@));
        }
    }
    assert(raw.take(raw.len() as int) =~= raw);
    keys
}

impl IndexBuilder {
    /// Adds a place, linked to the keys of its raw names, or to that of its own name where
    /// they have none.
    pub fn add_place(&mut self, place: &GeoRecord, names: &Vec<String>)
        requires
            place@.fits(),
        ensures
            final(self)@ == with_place(old(self)@, place@, texts(names@)),
    {
        let ghost before = self@;
        let id = self.add_record(place.to_record());
        let mut keys = fold_names(names);
        if keys.len() == 0 {
            let mut own: Vec<String> = Vec::new();
            own.push(place.name.clone());
            assert(texts(own@) =~= seq![place@.name]);
            keys = fold_names(&own);
        }
        let ghost links = links_to(texts(keys@), id);
        assert(before.links + links.take(0) =~= before.links);
        for i in 0..keys.len()
            invariant
                links == links_to(texts(keys@), id),
                self@.records == before.records.push(place@.encoded()),
                self@.links == before.links + links.take(i as int),
        {
            self.add_key(keys[i].as_str(), id);
            assert(before.links + links.take(i + 1) =~= (before.links + links.take(i as int)).push(
                links[i as int],
            ));
        }
        assert(links.take(links.len() as int) =~= links);
        assert(self@ =~= with_place(before, place@, texts(names@)));
    }
}

/// A line of the table, with the bits of its two coordinates.
#[derive(Debug, Clone)]
pub struct Line {
    pub text: String,
    pub lat_bits: Option<u64>,
    pub lon_bits: Option<u64>,
}

/// What a [`Line`] stands for.
#[verifier::ext_equal]
pub struct LineView {
    pub text: Seq<char>,
    pub lat_bits: Option<u64>,
    pub lon_bits: Option<u64>,
}

impl View for Line {
    type V = LineView;

    open spec fn view(&self) -> LineView {
        LineView { text: self.text@, lat_bits: self.lat_bits, lon_bits: self.lon_bits }
    }
}

/// The lines of a vector.
pub open spec fn line_views(lines: Seq<Line>) -> Seq<LineView> {
    lines.map_values(|l: Line| l@)
}

impl LineView {
    /// Whether the line holds data: it is not to be skipped.
    pub open spec fn holds_data(self) -> bool {
        columns_of(self.text) is Some
    }

    /// The place of a line that holds data, and its raw names; or what is wrong with it.
    pub open spec fn place(self) -> Result<(GeoView, Seq<Seq<char>>), LineError> {
        place_of(columns_of(self.text)->Some_0, self.lat_bits, self.lon_bits)
    }

    /// Whether the line can be stored, if there is something to store.
    pub open spec fn fits(self) -> bool {
        self.holds_data() && self.place() is Ok ==> self.place()->Ok_0.0.fits()
    }

    /// What has been gathered once the line has been read.
    pub open spec fn read_into(self, before: Gathered) -> Result<Gathered, LineError> {
        if !self.holds_data() {
            Ok(before)
        } else {
            match self.place() {
                Ok((place, names)) => Ok(with_place(before, place, names)),
                Err(e) => Err(e),
            }
        }
    }
}

/// What has been gathered once some lines have been read, one after the other; or the number
/// of the first that something is wrong with, counted from one, and what is wrong.
pub open spec fn lines_read(before: Gathered, lines: Seq<LineView>) -> Result<
    Gathered,
    (nat, LineError),
>
    decreases lines.len(),
{
    if lines.len() == 0 {
        Ok(before)
    } else {
        match lines_read(before, lines.drop_last()) {
            Err(e) => Err(e),
            Ok(g) => match lines.last().read_into(g) {
                Ok(after) => Ok(after),
                Err(e) => Err((lines.len(), e)),
            },
        }
    }
}

/// Whether every line that is come to can be stored. None is after one that something is
/// wrong with.
pub open spec fn lines_fit(lines: Seq<LineView>) -> bool {
    forall|i: int|
        0 <= i < lines.len() && all_sound(lines.take(i)) ==> (#[trigger] lines[i]).fits()
}

/// Whether nothing is wrong with any of some lines.
pub open spec fn all_sound(lines: Seq<LineView>) -> bool {
    forall|i: int|
        0 <= i < lines.len() && (#[trigger] lines[i]).holds_data() ==> lines[i].place() is Ok
}

/// The lines that hold data.
pub open spec fn data_lines(lines: Seq<LineView>) -> Seq<LineView>
    decreases lines.len(),
{
    if lines.len() == 0 {
        Seq::empty()
    } else {
        let front = data_lines(lines.drop_last());
        if lines.last().holds_data() {
            front.push(lines.last())
        } else {
            front
        }
    }
}

/// What a builder has gathered before anything was added.
pub open spec fn nothing() -> Gathered {
    Gathered { records: Seq::empty(), links: Seq::empty() }
}

/// Lines are read to the end just where nothing is wrong with any.
pub proof fn law_lines_read_where_sound(before: Gathered, lines: Seq<LineView>)
    ensures
        lines_read(before, lines) is Ok <==> all_sound(lines),
    decreases lines.len(),
{
    if lines.len() > 0 {
        let front = lines.drop_last();
        law_lines_read_where_sound(before, front);
        if all_sound(lines) {
            assert forall|i: int| 0 <= i < front.len() && (#[trigger] front[i]).holds_data() implies
                front[i].place() is Ok by {
                assert(lines[i].holds_data());
            }
            assert(lines[lines.len() - 1].holds_data() ==> lines.last().place() is Ok);
        }
        if lines_read(before, lines) is Ok {
            assert forall|i: int| 0 <= i < lines.len() && (#[trigger] lines[i]).holds_data() implies
                lines[i].place() is Ok by {
                if i < front.len() {
                    assert(front[i].holds_data());
                }
            }
        }
    }
}

/// The first line that something is wrong with is the one that is reported: it is wrong as
/// reported, and nothing is wrong with those before it.
pub proof fn law_first_bad_line_is_reported(
    before: Gathered,
    lines: Seq<LineView>,
    number: nat,
    error: LineError,
)
    requires
        lines_read(before, lines) == Err::<Gathered, (nat, LineError)>((number, error)),
    ensures
        1 <= number <= lines.len(),
        all_sound(lines.take(number - 1)),
        lines[number - 1].holds_data(),
        lines[number - 1].place() == Err::<(GeoView, Seq<Seq<char>>), LineError>(error),
    decreases lines.len(),
{
    if lines.len() > 0 {
        let front = lines.drop_last();
        if lines_read(before, front) is Err {
            law_first_bad_line_is_reported(before, front, number, error);
            assert(front.take(number - 1) =~= lines.take(number - 1));
            assert(front[number - 1] == lines[number - 1]);
        } else {
            law_lines_read_where_sound(before, front);
            assert(lines.take(number - 1) =~= front);
        }
    }
}

/// Only the lines that hold data show, and each adds a record.
proof fn lemma_only_data_shows(before: Gathered, lines: Seq<LineView>)
    requires
        lines_read(before, lines) is Ok,
    ensures
        lines_read(before, data_lines(lines)) == lines_read(before, lines),
        lines_read(before, lines)->Ok_0.records.len() == before.records.len() + data_lines(
            lines,
        ).len(),
    decreases lines.len(),
{
    if lines.len() > 0 {
        let front = lines.drop_last();
        lemma_only_data_shows(before, front);
        if lines.last().holds_data() {
            assert(data_lines(lines).drop_last() =~= data_lines(front));
        }
    }
}

/// The same table gives the same artifacts, byte for byte, and as many records and links:
/// lines that are skipped do not show. There is a record for each line that holds data.
pub proof fn law_same_table_same_artifacts(a: Seq<LineView>, b: Seq<LineView>)
    requires
        data_lines(a) == data_lines(b),
        lines_read(nothing(), a) is Ok,
        lines_read(nothing(), b) is Ok,
    ensures
        lines_read(nothing(), a) == lines_read(nothing(), b),
        lines_read(nothing(), a)->Ok_0.fst() == lines_read(nothing(), b)->Ok_0.fst(),
        lines_read(nothing(), a)->Ok_0.blob() == lines_read(nothing(), b)->Ok_0.blob(),
        lines_read(nothing(), a)->Ok_0.records.len() == data_lines(a).len(),
{
    lemma_only_data_shows(nothing(), a);
    lemma_only_data_shows(nothing(), b);
}

/// What could not be read stays so with more lines behind it.
proof fn lemma_lines_failed(before: Gathered, lines: Seq<LineView>, i: int)
    requires
        0 <= i <= lines.len(),
        lines_read(before, lines.take(i)) is Err,
    ensures
        lines_read(before, lines) == lines_read(before, lines.take(i)),
    decreases lines.len(),
{
    if i < lines.len() {
        assert(lines.drop_last().take(i) =~= lines.take(i));
        lemma_lines_failed(before, lines.drop_last(), i);
    } else {
        assert(lines.take(i) =~= lines);
    }
}

/// Tests whether every line that is come to can be stored.
pub fn check_lines(lines: &Vec<Line>) -> (r: bool)
    ensures
        r == lines_fit(line_views(lines@)),
{
    let ghost all = line_views(lines@);
    assert(all.take(0) =~= Seq::<LineView>::empty());
    for i in 0..lines.len()
        invariant
            all == line_views(lines@),
            all_sound(all.take(i as int)),
            forall|k: int|
                0 <= k < i && all_sound(all.take(k)) ==> (#[trigger] all[k]).fits(),
    {
        let ghost line = all[i as int];
        assert(line == lines@[i as int]@);
        let mut sound = true;
        match split_columns(lines[i].text.as_str()) {
            Some(columns) => {
                match parse_line(&columns, lines[i].lat_bits, lines[i].lon_bits) {
                    Ok((place, _names)) => {
                        if !place.fits() {
                            assert(!all[i as int].fits());
                            return false;
                        }
                    },
                    Err(_) => {
                        sound = false;
                    },
                }
            },
            None => {},
        }
        assert(line.fits());
        if !sound {
            proof {
                assert forall|k: int|
                    0 <= k < all.len() && all_sound(all.take(k)) implies
                    (#[trigger] all[k]).fits() by {
                    if k > i {
                        assert(all.take(k)[i as int] == line);
                        assert(all.take(k)[i as int].holds_data());
                    }
                }
            }
            return true;
        }
        proof {
            let upto = all.take(i + 1);
            assert forall|k: int|
                0 <= k < upto.len() && (#[trigger] upto[k]).holds_data() implies
                upto[k].place() is Ok by {
                if k < i {
                    assert(all.take(i as int)[k].holds_data());
                }
            }
        }
    }
    true
}

impl IndexBuilder {
    /// Reads lines one after the other, up to the first that something is wrong with; returns
    /// its number, counted from one, and what is wrong. What was read before it stays.
    pub fn add_lines(&mut self, lines: &Vec<Line>) -> (r: Result<(), (u64, LineError)>)
        requires
            lines_fit(line_views(lines@)),
        ensures
            match (r, lines_read(old(self)@, line_views(lines@))) {
                (Ok(_), Ok(after)) => final(self)@ == after,
                (Err((number, e)), Err((expected, f))) => {
                    &&& number == expected
                    &&& e == f
                    &&& lines_read(old(self)@, line_views(lines@).take(number - 1)) == Ok::<
                        Gathered,
                        (nat, LineError),
                    >(final(self)@)
                },
                _ => false,
            },
    {
        let ghost before = self@;
        let ghost all = line_views(lines@);
        assert(all.take(0) =~= Seq::<LineView>::empty());
        for i in 0..lines.len()
            invariant
                all == line_views(lines@),
                lines_fit(all),
                before == old(self)@,
                lines_read(before, all.take(i as int)) == Ok::<Gathered, (nat, LineError)>(self@),
        {
            let ghost line = all[i as int];
            proof {
                assert(line == lines@[i as int]@);
                assert(all.take(i + 1).drop_last() =~= all.take(i as int));
                assert(all.take(i + 1).last() == line);
                law_lines_read_where_sound(before, all.take(i as int));
                assert(line.fits());
            }
            match split_columns(lines[i].text.as_str()) {
                Some(columns) => {
                    match parse_line(&columns, lines[i].lat_bits, lines[i].lon_bits) {
                        Ok((place, names)) => {
                            self.add_place(&place, &names);
                        },
                        Err(e) => {
                            proof {
                                lemma_lines_failed(before, all, i + 1);
                            }
                            return Err((i as u64 + 1, e));
                        },
                    }
                },
                None => {},
            }
        }
        assert(all.take(all.len() as int) =~= all);
        Ok(())
    }
}

/// The two artifacts, and how much is in them.
pub struct Artifacts {
    pub fst: Vec<u8>,
    pub records: Vec<u8>,
    pub n_links: usize,
    pub n_records: usize,
}

/// Why a table gives no artifacts.
#[derive(Debug, Clone, Copy, PartialEq, Eq, Structural)]
pub enum TableError {
    /// Something is wrong with the line of that number, counted from one.
    BadLine(u64, LineError),
    /// The artifacts could not be written.
    Build(IndexError),
}

impl TableError {
    /// What an error says.
    pub open spec fn text(self) -> Seq<char> {
        match self {
            TableError::BadLine(number, e) => e.text_at(number as nat),
            TableError::Build(e) => e.text(),
        }
    }

    /// What this error says.
    pub fn message(&self) -> (message: String)
        ensures
            message@ == self.text(),
    {
        match self {
            TableError::BadLine(number, e) => e.message_at(*number),
            TableError::Build(e) => e.message(),
        }
    }
}

/// Builds the artifacts of a table, which open, or reports the first line that something is
/// wrong with. Nothing else makes it fail.
pub fn build_table(lines: &Vec<Line>) -> (r: Result<Artifacts, TableError>)
    requires
        lines_fit(line_views(lines@)),
    ensures
        match (r, lines_read(nothing(), line_views(lines@))) {
            (Ok(built), Ok(g)) => {
                &&& built.fst@ == g.fst()
                &&& built.records@ == g.blob()
                &&& built.n_links == g.links.len()
                &&& built.n_records == g.records.len()
                &&& fst_entries(built.fst@) == Some(numbered(g.rows()))
                &&& looks_like_fst(built.fst@)
                &&& trailer_fits(built.fst@)
                &&& header_fault(built.records@) is None
                &&& keys_are_text(g.links)
            },
            (Err(TableError::BadLine(number, e)), Err((expected, f))) => number == expected && e
                == f,
            _ => false,
        },
{
    let mut builder = IndexBuilder::new();
    match builder.add_lines(lines) {
        Ok(_) => {},
        Err((number, e)) => {
            return Err(TableError::BadLine(number, e));
        },
    }
    let n_links = builder.n_links();
    let n_records = builder.n_records();
    match builder.build() {
        Ok((fst, records)) => Ok(Artifacts { fst, records, n_links, n_records }),
        Err(e) => Err(TableError::Build(e)),
    }
}

/// What is said of a line with too few columns, and of any line with its number.
pub proof fn law_what_is_said_of_lines(n: usize, number: u64, error: LineError)
    ensures
        LineError::TooFewColumns(n).text() == "expected >=7 tab-separated columns, got "@
            + decimal_of(n as nat),
        TableError::BadLine(number, error).text() == "line "@ + decimal_of(number as nat) + ": "@
            + error.text(),
{
    reveal_strlit("expected >=");
    reveal_strlit(" tab-separated columns, got ");
    reveal_strlit("expected >=7 tab-separated columns, got ");
    assert(decimal_of(7) =~= seq!['7']);
    assert(LineError::TooFewColumns(n).text() =~= "expected >=7 tab-separated columns, got "@
        + decimal_of(n as nat));
}

} // verus!
