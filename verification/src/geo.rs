//! Geo adapter over the engine.
//!
//! This is the only code that knows of places: it maps a [`GeoRecord`] onto the [`Record`]
//! that the engine stores (`gid` as the group, `population` as the rank, the rest packed
//! into the payload) and back. Another domain is another adapter over the same engine.
//!
//! Latitude and longitude are kept as the bits of the number, as they are stored.
use vstd::prelude::*;
use vstd::utf8::encode_utf8;

use crate::builder::{numbered, IndexBuilder};
use crate::bytes::{
    le_digits, lemma_digits_of_value, lemma_le_bounds, lemma_le_digits_len, lemma_le_value_bound,
    lemma_le_value_digits, push_u64, read_u64, u64_at,
};
use crate::error::IndexError;
use crate::index::Index;
use crate::ranking::views;
use crate::records::{
    law_str_read_back, law_string_read_is_stored, push_str, read_str, str_at, str_bytes, str_fits,
    str_is_short, Backing, Record, RecordView,
};
use crate::search::{law_no_edits_is_exact, suggestions};
use crate::transducer::Entry;

verus! {

/// A place. Two places are equal where their fields are, the coordinates compared as numbers.
#[derive(Debug, Clone)]
pub struct GeoRecord {
    pub gid: u64,
    /// The bits of the latitude, a 64-bit number in IEEE 754 form.
    pub lat_bits: u64,
    /// The bits of the longitude, a 64-bit number in IEEE 754 form.
    pub lon_bits: u64,
    pub population: i64,
    pub country: String,
    pub feature_code: String,
    pub name: String,
}

/// What a [`GeoRecord`] stands for.
#[verifier::ext_equal]
pub struct GeoView {
    pub gid: u64,
    pub lat_bits: u64,
    pub lon_bits: u64,
    pub population: i64,
    pub country: Seq<char>,
    pub feature_code: Seq<char>,
    pub name: Seq<char>,
}

impl View for GeoRecord {
    type V = GeoView;

    open spec fn view(&self) -> GeoView {
        GeoView {
            gid: self.gid,
            lat_bits: self.lat_bits,
            lon_bits: self.lon_bits,
            population: self.population,
            country: self.country@,
            feature_code: self.feature_code@,
            name: self.name@,
        }
    }
}

/// Whether bits stand for no number (NaN): all ones in the exponent, and not all zeros behind
/// it.
pub open spec fn is_nan_bits(bits: u64) -> bool {
    bits % 0x8000_0000_0000_0000 > 0x7ff0_0000_0000_0000
}

/// Whether bits stand for zero, of either sign.
pub open spec fn is_zero_bits(bits: u64) -> bool {
    bits % 0x8000_0000_0000_0000 == 0
}

/// Whether two numbers given by their bits compare as equal: NaN equals nothing, and the two
/// zeros equal each other.
pub open spec fn same_number(a: u64, b: u64) -> bool {
    !is_nan_bits(a) && !is_nan_bits(b) && (a == b || (is_zero_bits(a) && is_zero_bits(b)))
}

/// Compares two numbers given by their bits.
pub fn numbers_equal(a: u64, b: u64) -> (r: bool)
    ensures
        r == same_number(a, b),
{
    let nan: u64 = 0x7ff0_0000_0000_0000;
    let x: u64 = a % 0x8000_0000_0000_0000;
    let y: u64 = b % 0x8000_0000_0000_0000;
    x <= nan && y <= nan && (a == b || (x == 0 && y == 0))
}

impl PartialEq for GeoRecord {
    fn eq(&self, other: &GeoRecord) -> (r: bool) {
        self.gid == other.gid && numbers_equal(self.lat_bits, other.lat_bits) && numbers_equal(
            self.lon_bits,
            other.lon_bits,
        ) && self.population == other.population && self.country == other.country
            && self.feature_code == other.feature_code && self.name == other.name
    }
}

impl vstd::std_specs::cmp::PartialEqSpecImpl for GeoRecord {
    open spec fn obeys_eq_spec() -> bool {
        true
    }

    open spec fn eq_spec(&self, other: &GeoRecord) -> bool {
        &&& self.gid == other.gid
        &&& same_number(self.lat_bits, other.lat_bits)
        &&& same_number(self.lon_bits, other.lon_bits)
        &&& self.population == other.population
        &&& self.country@ == other.country@
        &&& self.feature_code@ == other.feature_code@
        &&& self.name@ == other.name@
    }
}

impl GeoView {
    /// Whether the strings of a place can be stored.
    pub open spec fn fits(self) -> bool {
        str_fits(self.country) && str_fits(self.feature_code) && str_fits(self.name)
    }

    /// The payload of a place: latitude, longitude, country, feature code and name.
    pub open spec fn payload(self) -> Seq<u8> {
        le_digits(self.lat_bits as nat, 8) + le_digits(self.lon_bits as nat, 8) + str_bytes(
            self.country,
        ) + str_bytes(self.feature_code) + str_bytes(self.name)
    }

    /// The record that a place is stored as.
    pub open spec fn encoded(self) -> RecordView {
        RecordView { group: self.gid, rank: self.population, payload: self.payload() }
    }
}

/// The place that a record stands for, or what is wrong with its payload.
pub open spec fn decoded(r: RecordView) -> Result<GeoView, IndexError> {
    let p = r.payload;
    match (u64_at(p, 0), u64_at(p, 8), str_at(p, 16)) {
        (Err(e), _, _) => Err(e),
        (_, Err(e), _) => Err(e),
        (_, _, Err(e)) => Err(e),
        (Ok(lat_bits), Ok(lon_bits), Ok((country, at))) => match str_at(p, at) {
            Err(e) => Err(e),
            Ok((feature_code, past)) => match str_at(p, past) {
                Err(e) => Err(e),
                Ok((name, _)) => Ok(
                    GeoView {
                        gid: r.group,
                        lat_bits,
                        lon_bits,
                        population: r.rank,
                        country,
                        feature_code,
                        name,
                    },
                ),
            },
        },
    }
}

/// The places that some records stand for; the first that cannot be decoded is the failure
/// of the whole.
pub open spec fn decoded_all(records: Seq<RecordView>) -> Result<Seq<GeoView>, IndexError>
    decreases records.len(),
{
    if records.len() == 0 {
        Ok(Seq::empty())
    } else {
        match decoded_all(records.drop_last()) {
            Err(e) => Err(e),
            Ok(places) => match decoded(records.last()) {
                Err(e) => Err(e),
                Ok(place) => Ok(places.push(place)),
            },
        }
    }
}

/// The places shown for a query: what is shown, decoded.
pub open spec fn geo_suggestions(
    entries: Seq<Entry>,
    data: Seq<u8>,
    prefix: Seq<char>,
    limit: int,
    max_edits: u32,
) -> Result<Seq<GeoView>, IndexError> {
    match suggestions(entries, data, prefix, limit, max_edits) {
        Err(e) => Err(e),
        Ok(shown) => decoded_all(shown),
    }
}

/// The places of a vector.
pub open spec fn geo_views(places: Seq<GeoRecord>) -> Seq<GeoView> {
    places.map_values(|g: GeoRecord| g@)
}

/// A place is decoded from the record that it was encoded as.
pub proof fn law_geo_round_trip(g: GeoView)
    requires
        g.fits(),
    ensures
        decoded(g.encoded()) == Ok::<GeoView, IndexError>(g),
{
    let p = g.payload();
    let lat = le_digits(g.lat_bits as nat, 8);
    let lon = le_digits(g.lon_bits as nat, 8);
    let country = str_bytes(g.country);
    let feature_code = str_bytes(g.feature_code);
    let name = str_bytes(g.name);
    lemma_le_bounds();
    lemma_le_digits_len(g.lat_bits as nat, 8);
    lemma_le_digits_len(g.lon_bits as nat, 8);
    lemma_le_value_digits(g.lat_bits as nat, 8);
    lemma_le_value_digits(g.lon_bits as nat, 8);
    assert(p.subrange(0, 8) =~= lat);
    assert(p.subrange(8, 16) =~= lon);
    law_str_read_back(lat + lon, g.country, feature_code + name);
    assert(lat + lon + country + (feature_code + name) =~= p);
    law_str_read_back(lat + lon + country, g.feature_code, name);
    law_str_read_back(lat + lon + country + feature_code, g.name, Seq::empty());
    assert(lat + lon + country + feature_code + name + Seq::<u8>::empty() =~= p);
}

/// How a place is stored: its `gid` as the group, its population as the rank, and in the payload
/// the bits of its coordinates, the lowest byte first, its country, its feature code and its
/// name.
pub proof fn law_how_a_place_is_stored(g: GeoView)
    ensures
        g.encoded().group == g.gid,
        g.encoded().rank == g.population,
        u64_at(g.encoded().payload, 0) == Ok::<u64, IndexError>(g.lat_bits),
        u64_at(g.encoded().payload, 8) == Ok::<u64, IndexError>(g.lon_bits),
        g.encoded().payload.len() >= 16,
        g.encoded().payload.skip(16) == str_bytes(g.country) + str_bytes(g.feature_code)
            + str_bytes(g.name),
        g.fits() <==> encode_utf8(g.country).len() <= 65535 && encode_utf8(g.feature_code).len()
            <= 65535 && encode_utf8(g.name).len() <= 65535,
{
    let p = g.payload();
    lemma_le_bounds();
    lemma_le_digits_len(g.lat_bits as nat, 8);
    lemma_le_digits_len(g.lon_bits as nat, 8);
    lemma_le_value_digits(g.lat_bits as nat, 8);
    lemma_le_value_digits(g.lon_bits as nat, 8);
    assert(p.subrange(0, 8) =~= le_digits(g.lat_bits as nat, 8));
    assert(p.subrange(8, 16) =~= le_digits(g.lon_bits as nat, 8));
    assert(p.skip(16) =~= str_bytes(g.country) + str_bytes(g.feature_code) + str_bytes(g.name));
}

/// Which place a record is decoded as: the one that it starts with as it is stored, whatever
/// stands behind it; and none where it starts with none.
pub proof fn law_which_place_is_decoded(r: RecordView, g: GeoView)
    ensures
        decoded(r) == Ok::<GeoView, IndexError>(g) <==> {
            &&& g.fits()
            &&& r.group == g.gid
            &&& r.rank == g.population
            &&& g.encoded().payload.len() <= r.payload.len()
            &&& r.payload.take(g.encoded().payload.len() as int) == g.encoded().payload
        },
{
    let p = r.payload;
    let lat = le_digits(g.lat_bits as nat, 8);
    let lon = le_digits(g.lon_bits as nat, 8);
    let country = str_bytes(g.country);
    let feature_code = str_bytes(g.feature_code);
    let name = str_bytes(g.name);
    let n = g.payload().len() as int;
    lemma_le_bounds();
    lemma_le_digits_len(g.lat_bits as nat, 8);
    lemma_le_digits_len(g.lon_bits as nat, 8);
    lemma_le_value_digits(g.lat_bits as nat, 8);
    lemma_le_value_digits(g.lon_bits as nat, 8);
    if g.fits() && r.group == g.gid && r.rank == g.population && n <= p.len() && p.take(n)
        == g.payload() {
        let rest = p.skip(n);
        assert(p =~= g.payload() + rest);
        assert(p.subrange(0, 8) =~= lat);
        assert(p.subrange(8, 16) =~= lon);
        law_str_read_back(lat + lon, g.country, feature_code + name + rest);
        assert(lat + lon + country + (feature_code + name + rest) =~= p);
        law_str_read_back(lat + lon + country, g.feature_code, name + rest);
        assert(lat + lon + country + feature_code + (name + rest) =~= p);
        law_str_read_back(lat + lon + country + feature_code, g.name, rest);
        assert(lat + lon + country + feature_code + name + rest =~= p);
    }
    if decoded(r) == Ok::<GeoView, IndexError>(g) {
        let (c, at) = str_at(p, 16)->Ok_0;
        let (f, past) = str_at(p, at)->Ok_0;
        law_string_read_is_stored(p, 16);
        law_string_read_is_stored(p, at);
        law_string_read_is_stored(p, past);
        lemma_digits_of_value(p.subrange(0, 8));
        lemma_digits_of_value(p.subrange(8, 16));
        lemma_le_value_bound(p.subrange(0, 8));
        lemma_le_value_bound(p.subrange(8, 16));
        assert(p.subrange(0, 8) == lat);
        assert(p.subrange(8, 16) == lon);
        assert(p.take(n) =~= g.payload()) by {
            let end = past + name.len();
            assert(p.take(end) =~= p.subrange(0, 8) + p.subrange(8, 16) + p.subrange(16, at)
                + p.subrange(at, past) + p.subrange(past, end));
        }
    }
}

/// Records are decoded one after the other; the first that stands for no place is the failure
/// of the whole.
pub proof fn law_decoded_one_after_the_other(a: Seq<RecordView>, b: Seq<RecordView>, r: RecordView)
    ensures
        decoded_all(Seq::empty()) == Ok::<Seq<GeoView>, IndexError>(Seq::empty()),
        decoded_all(seq![r]) == (match decoded(r) {
            Ok(place) => Ok::<Seq<GeoView>, IndexError>(seq![place]),
            Err(e) => Err(e),
        }),
        decoded_all(a + b) == (match (decoded_all(a), decoded_all(b)) {
            (Err(e), _) => Err::<Seq<GeoView>, IndexError>(e),
            (_, Err(e)) => Err(e),
            (Ok(x), Ok(y)) => Ok(x + y),
        }),
    decreases b.len(),
{
    reveal_with_fuel(decoded_all, 2);
    assert(seq![r].drop_last() =~= Seq::<RecordView>::empty());
    if decoded(r) is Ok {
        assert(Seq::<GeoView>::empty().push(decoded(r)->Ok_0) =~= seq![decoded(r)->Ok_0]);
    }
    if b.len() == 0 {
        assert(a + b =~= a);
        if decoded_all(a) is Ok {
            assert(decoded_all(a)->Ok_0 + Seq::<GeoView>::empty() =~= decoded_all(a)->Ok_0);
        }
    } else {
        law_decoded_one_after_the_other(a, b.drop_last(), r);
        assert((a + b).drop_last() =~= a + b.drop_last());
        if decoded_all(a) is Ok && decoded_all(b) is Ok {
            assert(decoded_all(a + b)->Ok_0 =~= decoded_all(a)->Ok_0 + decoded_all(b)->Ok_0);
        }
    }
}

/// The places shown are the records shown, decoded.
pub proof fn law_places_are_records_decoded(
    entries: Seq<Entry>,
    data: Seq<u8>,
    prefix: Seq<char>,
    limit: int,
    max_edits: u32,
)
    ensures
        geo_suggestions(entries, data, prefix, limit, max_edits) == (match suggestions(
            entries,
            data,
            prefix,
            limit,
            max_edits,
        ) {
            Err(e) => Err::<Seq<GeoView>, IndexError>(e),
            Ok(shown) => decoded_all(shown),
        }),
{
}

/// When two numbers given by their bits are equal, said of sign, exponent and fraction.
pub proof fn law_when_numbers_are_equal(
    sign_a: u64,
    exp_a: u64,
    frac_a: u64,
    sign_b: u64,
    exp_b: u64,
    frac_b: u64,
)
    requires
        sign_a < 2 && exp_a < 0x800 && frac_a < 0x10_0000_0000_0000,
        sign_b < 2 && exp_b < 0x800 && frac_b < 0x10_0000_0000_0000,
    ensures
        ({
            let a = (sign_a * 0x8000_0000_0000_0000 + exp_a * 0x10_0000_0000_0000 + frac_a) as u64;
            let b = (sign_b * 0x8000_0000_0000_0000 + exp_b * 0x10_0000_0000_0000 + frac_b) as u64;
            same_number(a, b) <==> {
                &&& exp_a < 0x7ff || frac_a == 0
                &&& exp_b < 0x7ff || frac_b == 0
                &&& exp_a == exp_b && frac_a == frac_b
                &&& sign_a == sign_b || (exp_a == 0 && frac_a == 0)
            }
        }),
{
    let a = sign_a * 0x8000_0000_0000_0000 + exp_a * 0x10_0000_0000_0000 + frac_a;
    let b = sign_b * 0x8000_0000_0000_0000 + exp_b * 0x10_0000_0000_0000 + frac_b;
    assert(a % 0x8000_0000_0000_0000 == exp_a * 0x10_0000_0000_0000 + frac_a);
    assert(b % 0x8000_0000_0000_0000 == exp_b * 0x10_0000_0000_0000 + frac_b);
}

/// What could not be decoded stays so with more records behind it.
proof fn lemma_decoded_failed(records: Seq<RecordView>, i: int)
    requires
        0 <= i <= records.len(),
        decoded_all(records.take(i)) is Err,
    ensures
        decoded_all(records) == decoded_all(records.take(i)),
    decreases records.len(),
{
    if i < records.len() {
        assert(records.drop_last().take(i) =~= records.take(i));
        lemma_decoded_failed(records.drop_last(), i);
    } else {
        assert(records.take(i) =~= records);
    }
}

impl GeoRecord {
    /// Whether the strings of this place can be stored.
    pub fn fits(&self) -> (r: bool)
        ensures
            r == self@.fits(),
    {
        str_is_short(self.country.as_str()) && str_is_short(self.feature_code.as_str())
            && str_is_short(self.name.as_str())
    }

    /// Encodes a place as a record.
    pub fn to_record(&self) -> (r: Record)
        requires
            self@.fits(),
        ensures
            r@ == self@.encoded(),
    {
        let mut payload: Vec<u8> = Vec::new();
        push_u64(&mut payload, self.lat_bits);
        push_u64(&mut payload, self.lon_bits);
        push_str(&mut payload, self.country.as_str());
        push_str(&mut payload, self.feature_code.as_str());
        push_str(&mut payload, self.name.as_str());
        assert(payload@ =~= self@.payload());
        Record { group: self.gid, rank: self.population, payload }
    }

    /// Decodes a record that [`GeoRecord::to_record`] made, or says what is wrong with its
    /// payload.
    pub fn from_record(r: &Record) -> (place: Result<GeoRecord, IndexError>)
        ensures
            match (place, decoded(r@)) {
                (Ok(g), Ok(expected)) => g@ == expected,
                (Err(e), Err(f)) => e == f,
                _ => false,
            },
    {
        let p = r.payload.as_slice();
        let lat_bits: u64 = match read_u64(p, 0) {
            Ok(bits) => bits,
            Err(e) => {
                return Err(e);
            },
        };
        let lon_bits: u64 = match read_u64(p, 8) {
            Ok(bits) => bits,
            Err(e) => {
                return Err(e);
            },
        };
        let (country, at) = match read_str(p, 16) {
            Ok(read) => read,
            Err(e) => {
                return Err(e);
            },
        };
        let (feature_code, past) = match read_str(p, at) {
            Ok(read) => read,
            Err(e) => {
                return Err(e);
            },
        };
        let (name, _end) = match read_str(p, past) {
            Ok(read) => read,
            Err(e) => {
                return Err(e);
            },
        };
        Ok(
            GeoRecord {
                gid: r.group,
                lat_bits,
                lon_bits,
                population: r.rank,
                country,
                feature_code,
                name,
            },
        )
    }

    /// Decodes records, in order.
    pub fn from_records(records: &Vec<Record>) -> (places: Result<Vec<GeoRecord>, IndexError>)
        ensures
            match (places, decoded_all(views(records@))) {
                (Ok(all), Ok(expected)) => geo_views(all@) == expected,
                (Err(e), Err(f)) => e == f,
                _ => false,
            },
    {
        let ghost shown = views(records@);
        let mut places: Vec<GeoRecord> = Vec::new();
        assert(shown.take(0) =~= Seq::<RecordView>::empty());
        assert(geo_views(places@) =~= Seq::<GeoView>::empty());
        for i in 0..records.len()
            invariant
                shown == views(records@),
                decoded_all(shown.take(i as int)) == Ok::<Seq<GeoView>, IndexError>(
                    geo_views(places@),
                ),
        {
            let ghost before = places@;
            proof {
                assert(shown.take(i + 1).drop_last() =~= shown.take(i as int));
                assert(shown.take(i + 1).last() == records@[i as int]@);
            }
            match GeoRecord::from_record(&records[i]) {
                Ok(place) => {
                    places.push(place);
                    assert(geo_views(places@) =~= geo_views(before).push(place@));
                },
                Err(e) => {
                    proof {
                        lemma_decoded_failed(shown, i + 1);
                    }
                    return Err(e);
                },
            }
        }
        assert(shown.take(shown.len() as int) =~= shown);
        Ok(places)
    }
}

impl<B: Backing> Index<B> {
    /// [`Index::suggest`], decoded.
    pub fn suggest_geo(&self, prefix: &str, limit: usize) -> (r: Result<Vec<GeoRecord>, IndexError>)
        requires
            self.is_sound(),
        ensures
            match (
                r,
                geo_suggestions(self.entries(), self.records_data(), prefix@, limit as int, 0),
            ) {
                (Ok(places), Ok(expected)) => geo_views(places@) == expected,
                (Err(e), Err(f)) => e == f,
                _ => false,
            },
    {
        proof {
            law_no_edits_is_exact(self.entries(), self.records_data(), prefix@, limit as int);
        }
        match self.suggest(prefix, limit) {
            Ok(shown) => GeoRecord::from_records(&shown),
            Err(e) => Err(e),
        }
    }

    /// [`Index::suggest_fuzzy`], decoded. Without edits this is [`Index::suggest_geo`].
    pub fn suggest_geo_fuzzy(&self, prefix: &str, limit: usize, max_edits: u32) -> (r: Result<
        Vec<GeoRecord>,
        IndexError,
    >)
        requires
            self.is_sound(),
        ensures
            match (
                r,
                geo_suggestions(
                    self.entries(),
                    self.records_data(),
                    prefix@,
                    limit as int,
                    max_edits,
                ),
            ) {
                (Ok(places), Ok(expected)) => geo_views(places@) == expected,
                (Err(e), Err(f)) => e == f,
                _ => false,
            },
    {
        match self.suggest_fuzzy(prefix, limit, max_edits) {
            Ok(shown) => GeoRecord::from_records(&shown),
            Err(e) => Err(e),
        }
    }
}

impl IndexBuilder {
    /// [`IndexBuilder::suggest_once`], decoded.
    pub fn suggest_geo_once(self, prefix: &str, limit: usize, max_edits: u32) -> (r: Result<
        Vec<GeoRecord>,
        IndexError,
    >)
        ensures
            match (
                r,
                geo_suggestions(
                    numbered(self@.rows()),
                    self@.blob(),
                    prefix@,
                    limit as int,
                    max_edits,
                ),
            ) {
                (Ok(places), Ok(expected)) => geo_views(places@) == expected,
                (Err(e), Err(f)) => e == f,
                _ => false,
            },
    {
        match self.into_index() {
            Ok(index) => if max_edits == 0 {
                index.suggest_geo(prefix, limit)
            } else {
                index.suggest_geo_fuzzy(prefix, limit, max_edits)
            },
            Err(e) => Err(e),
        }
    }
}

/// What is wrong with a record that stands for no place: the first part of its payload that
/// cannot be read.
pub proof fn law_why_no_place_is_decoded(r: RecordView)
    ensures
        r.payload.len() < 16 ==> decoded(r) == Err::<GeoView, IndexError>(
            IndexError::U64OutOfBounds,
        ),
        r.payload.len() >= 16 ==> match str_at(r.payload, 16) {
            Err(e) => decoded(r) == Err::<GeoView, IndexError>(e),
            Ok((_, at)) => match str_at(r.payload, at) {
                Err(e) => decoded(r) == Err::<GeoView, IndexError>(e),
                Ok((_, past)) => match str_at(r.payload, past) {
                    Err(e) => decoded(r) == Err::<GeoView, IndexError>(e),
                    Ok(_) => decoded(r) is Ok,
                },
            },
        },
{
}

} // verus!
