//! Build side: records, and links from keys to them, become the two artifacts that the
//! query side reads, `index.fst` and `records.bin`.
//!
//! The transducer takes keys in rising order, each once. So the links are lined up and
//! grouped: each distinct key becomes one postings entry (the ids linked to it, rising,
//! each once), and the transducer maps the key to the number of that entry.
use vstd::prelude::*;
use vstd::utf8::{encode_utf8, encode_utf8_valid_utf8, valid_utf8};

use crate::blob::{blob, id_lists, law_opens, serialize_records};
use crate::bytes::push_bytes;
use crate::error::IndexError;
use crate::order::{
    bytes_before, lemma_bytes_total, lemma_bytes_transitive, lemma_same_values, lined_up,
    place_bytes, sort, Place, Sortable,
};
use crate::ranking::views;
use crate::records::{header_fault, Record, RecordView};
use crate::table::{
    holds, law_table, law_table_unique, put, put_id, table, well_ordered, LinkView, Row,
};
use crate::transducer::{
    finish_map, fst_encoding, fst_entries, insert_entry, inserted, looks_like_fst, new_map_builder,
    trailer_fits, Entry,
};

verus! {

/// A key linked to a record.
struct Link {
    key: Vec<u8>,
    id: u32,
}

impl View for Link {
    type V = LinkView;

    closed spec fn view(&self) -> LinkView {
        (self.key@, self.id)
    }
}

/// The links of a vector.
spec fn link_views(links: Seq<Link>) -> Seq<LinkView> {
    links.map_values(|l: Link| l@)
}

impl Sortable for Link {
    closed spec fn leads(self, other: Link) -> bool {
        bytes_before(self@.0, other@.0) || (self@.0 == other@.0 && self@.1 <= other@.1)
    }

    proof fn law_total(a: Link, b: Link) {
        lemma_bytes_total(a@.0, b@.0);
    }

    proof fn law_transitive(a: Link, b: Link, c: Link) {
        if bytes_before(a@.0, b@.0) && bytes_before(b@.0, c@.0) {
            lemma_bytes_transitive(a@.0, b@.0, c@.0);
        }
    }

    fn may_lead(&self, other: &Link) -> (r: bool) {
        match place_bytes(self.key.as_slice(), other.key.as_slice()) {
            Place::Before => true,
            Place::Same => self.id <= other.id,
            Place::After => {
                proof {
                    assert(!bytes_before(self.key@, other.key@));
                }
                false
            },
        }
    }
}

/// What a builder has gathered: records, and links from keys to them.
#[verifier::ext_equal]
pub struct Gathered {
    pub records: Seq<RecordView>,
    pub links: Seq<LinkView>,
}

/// The ids of each row of a table.
pub open spec fn id_columns(rows: Seq<Row>) -> Seq<Seq<u32>> {
    rows.map_values(|r: Row| r.ids)
}

/// The keys of a table with the number of their row.
pub open spec fn numbered(rows: Seq<Row>) -> Seq<Entry> {
    Seq::new(rows.len(), |i: int| (rows[i].key, i as u64))
}

impl Gathered {
    /// The table of the links gathered.
    pub open spec fn rows(self) -> Seq<Row> {
        table(self.links)
    }

    /// `index.fst` for what was gathered.
    pub open spec fn fst(self) -> Seq<u8> {
        fst_encoding(numbered(self.rows()))
    }

    /// `records.bin` for what was gathered.
    pub open spec fn blob(self) -> Seq<u8> {
        blob(id_columns(self.rows()), self.records)
    }
}

/// Rows given by their keys and their ids.
spec fn rows_of(keys: Seq<Vec<u8>>, postings: Seq<Vec<u32>>) -> Seq<Row> {
    Seq::new(keys.len(), |i: int| Row { key: keys[i]@, ids: postings[i]@ })
}

/// Groups links by key: the distinct keys, rising, and for each the ids linked to it,
/// rising.
fn group_links(links: Vec<Link>) -> (r: (Vec<Vec<u8>>, Vec<Vec<u32>>))
    ensures
        r.0@.len() == r.1@.len(),
        rows_of(r.0@, r.1@) == table(link_views(links@)),
{
    let ghost unsorted = links@;
    let sorted = sort(links);
    let ghost line = sorted@;
    let mut keys: Vec<Vec<u8>> = Vec::new();
    let mut postings: Vec<Vec<u32>> = Vec::new();
    assert(rows_of(keys@, postings@) =~= table(link_views(line.take(0))));
    for link in it: sorted
        invariant
            it.seq() == line,
            lined_up(line),
            keys@.len() == postings@.len(),
            rows_of(keys@, postings@) == table(link_views(line.take(it.index()))),
            it.index() > 0 ==> keys@.len() > 0 && postings@.last()@.len() > 0
                && keys@.last()@ == line[it.index() - 1]@.0
                && postings@.last()@.last() == line[it.index() - 1]@.1,
    {
        let ghost i = it.index();
        let ghost rows = rows_of(keys@, postings@);
        let ghost before = link_views(line.take(i));
        let ghost after = link_views(line.take(i + 1));
        proof {
            assert(after.drop_last() =~= before);
            assert(after.last() == link@);
            if i > 0 {
                assert(line[i - 1].leads(line[i]));
            }
        }
        let n = keys.len();
        let same: bool = n > 0 && place_bytes(keys[n - 1].as_slice(), link.key.as_slice())
            == Place::Same;
        if same {
            let last = postings[n - 1].len() - 1;
            if postings[n - 1][last] != link.id {
                postings[n - 1].push(link.id);
            }
            proof {
                assert(rows_of(keys@, postings@) =~= rows.drop_last().push(
                    Row { key: link@.0, ids: put_id(rows.last().ids, link@.1) },
                ));
            }
        } else {
            let mut ids: Vec<u32> = Vec::new();
            ids.push(link.id);
            keys.push(link.key);
            postings.push(ids);
            proof {
                assert(ids@ =~= seq![link@.1]);
                assert(rows_of(keys@, postings@) =~= rows.push(
                    Row { key: link@.0, ids: seq![link@.1] },
                ));
            }
        }
        assert(rows_of(keys@, postings@) == put(rows, link@.0, link@.1));
    }
    proof {
        assert(line.take(line.len() as int) =~= line);
        lemma_same_values(unsorted, line);
        let a = link_views(unsorted);
        let b = link_views(line);
        law_table(a);
        law_table(b);
        assert forall|k: Seq<u8>, x: u32| #[trigger]
            holds(table(a), k, x) <==> holds(table(b), k, x) by {
            if a.contains((k, x)) {
                let i = choose|i: int| 0 <= i < a.len() && a[i] == (k, x);
                assert(unsorted.contains(unsorted[i]));
                let j = choose|j: int| 0 <= j < line.len() && line[j] == unsorted[i];
                assert(b[j] == (k, x));
            }
            if b.contains((k, x)) {
                let i = choose|i: int| 0 <= i < b.len() && b[i] == (k, x);
                assert(line.contains(line[i]));
                let j = choose|j: int| 0 <= j < unsorted.len() && unsorted[j] == line[i];
                assert(a[j] == (k, x));
            }
        }
        law_table_unique(table(a), table(b));
    }
    (keys, postings)
}

/// Writes a transducer that maps each key to its number.
fn build_fst(keys: &Vec<Vec<u8>>, Ghost(rows): Ghost<Seq<Row>>) -> (r: Result<Vec<u8>, IndexError>)
    requires
        well_ordered(rows),
        keys@.len() == rows.len(),
        forall|i: int| 0 <= i < rows.len() ==> (#[trigger] keys@[i])@ == rows[i].key,
    ensures
        r is Ok,
        r->Ok_0@ == fst_encoding(numbered(rows)),
        fst_entries(r->Ok_0@) == Some(numbered(rows)),
        looks_like_fst(r->Ok_0@),
        trailer_fits(r->Ok_0@),
{
    let ghost entries = numbered(rows);
    let mut builder = match new_map_builder() {
        Ok(builder) => builder,
        Err(_) => {
            return Err(IndexError::TransducerBuild);
        },
    };
    assert(inserted(builder) =~= entries.take(0));
    for i in 0..keys.len()
        invariant
            well_ordered(rows),
            keys@.len() == rows.len(),
            forall|i: int| 0 <= i < rows.len() ==> (#[trigger] keys@[i])@ == rows[i].key,
            entries == numbered(rows),
            inserted(builder) == entries.take(i as int),
    {
        proof {
            if i > 0 {
                assert(bytes_before(rows[i - 1].key, rows[i as int].key));
            }
        }
        match insert_entry(&mut builder, keys[i].as_slice(), i as u64) {
            Ok(_) => {},
            Err(_) => {
                return Err(IndexError::TransducerBuild);
            },
        }
        assert(entries.take(i + 1) =~= entries.take(i as int).push(entries[i as int]));
    }
    assert(entries.take(keys@.len() as int) =~= entries);
    match finish_map(builder) {
        Ok(bytes) => Ok(bytes),
        Err(_) => Err(IndexError::TransducerBuild),
    }
}

/// Gathers records and links from keys to them, and writes the two artifacts.
pub struct IndexBuilder {
    records: Vec<Record>,
    links: Vec<Link>,
}

impl View for IndexBuilder {
    type V = Gathered;

    closed spec fn view(&self) -> Gathered {
        Gathered { records: views(self.records@), links: link_views(self.links@) }
    }
}

/// Whether every key of some links is text.
pub open spec fn keys_are_text(links: Seq<LinkView>) -> bool {
    forall|i: int| 0 <= i < links.len() ==> valid_utf8((#[trigger] links[i]).0)
}

impl IndexBuilder {
    #[verifier::type_invariant]
    spec fn links_text(self) -> bool {
        keys_are_text(link_views(self.links@))
    }
}

impl Default for IndexBuilder {
    fn default() -> (builder: IndexBuilder)
        ensures
            builder@ == (Gathered { records: Seq::empty(), links: Seq::empty() }),
    {
        let builder = IndexBuilder { records: Vec::new(), links: Vec::new() };
        assert(builder@ =~= (Gathered { records: Seq::empty(), links: Seq::empty() }));
        builder
    }
}

impl IndexBuilder {
    /// A builder that has gathered nothing.
    pub fn new() -> (builder: IndexBuilder)
        ensures
            builder@ == (Gathered { records: Seq::empty(), links: Seq::empty() }),
    {
        IndexBuilder::default()
    }

    /// Registers a record and returns its id: the number of records before it, in 32 bits.
    pub fn add_record(&mut self, record: Record) -> (id: u32)
        ensures
            id as int == old(self)@.records.len() as int % 0x1_0000_0000,
            final(self)@ == (Gathered {
                records: old(self)@.records.push(record@),
                links: old(self)@.links,
            }),
    {
        let ghost before = self@;
        let id = (self.records.len() as u64 % 0x1_0000_0000) as u32;
        proof {
            use_type_invariant(&*self);
        }
        let mut records: Vec<Record> = Vec::new();
        std::mem::swap(&mut records, &mut self.records);
        records.push(record);
        self.records = records;
        assert(self@.records =~= before.records.push(record@));
        id
    }

    /// Links a key, already normalized, to a record id. A key may be linked to many records
    /// and a record to many keys.
    pub fn add_key(&mut self, key: &str, record_id: u32)
        ensures
            final(self)@ == (Gathered {
                records: old(self)@.records,
                links: old(self)@.links.push((encode_utf8(key@), record_id)),
            }),
    {
        let ghost before = self@;
        let mut bytes: Vec<u8> = Vec::new();
        push_bytes(&mut bytes, key.as_bytes());
        assert(bytes@ =~= encode_utf8(key@));
        proof {
            use_type_invariant(&*self);
            encode_utf8_valid_utf8(key@);
        }
        let mut links: Vec<Link> = Vec::new();
        std::mem::swap(&mut links, &mut self.links);
        links.push(Link { key: bytes, id: record_id });
        proof {
            assert(link_views(links@) =~= before.links.push((encode_utf8(key@), record_id)));
        }
        self.links = links;
        assert(self@.links =~= before.links.push((encode_utf8(key@), record_id)));
    }

    /// The number of records registered.
    pub fn n_records(&self) -> (n: usize)
        ensures
            n == self@.records.len(),
    {
        self.records.len()
    }

    /// The number of links made.
    pub fn n_links(&self) -> (n: usize)
        ensures
            n == self@.links.len(),
    {
        self.links.len()
    }

    /// Writes `index.fst` and `records.bin`. This never fails.
    pub fn build(self) -> (r: Result<(Vec<u8>, Vec<u8>), IndexError>)
        ensures
            r is Ok,
            r->Ok_0.0@ == self@.fst(),
            r->Ok_0.1@ == self@.blob(),
            fst_entries(r->Ok_0.0@) == Some(numbered(self@.rows())),
            looks_like_fst(r->Ok_0.0@),
            trailer_fits(r->Ok_0.0@),
            header_fault(r->Ok_0.1@) is None,
            keys_are_text(self@.links),
            self@.blob().len() <= usize::MAX,
    {
        proof {
            use_type_invariant(&self);
        }
        let ghost gathered = self@;
        let ghost rows = gathered.rows();
        let (keys, postings) = group_links(self.links);
        proof {
            law_table(gathered.links);
            assert forall|i: int| 0 <= i < rows.len() implies
                (#[trigger] keys@[i])@ == rows[i].key by {
                assert(rows_of(keys@, postings@)[i] == rows[i]);
            }
            assert forall|i: int| 0 <= i < rows.len() implies (#[trigger] postings@[i])@
                == rows[i].ids by {
                assert(rows_of(keys@, postings@)[i] == rows[i]);
            }
            assert(id_lists(postings@) =~= id_columns(rows));
        }
        let fst_bytes = match build_fst(&keys, Ghost(rows)) {
            Ok(bytes) => bytes,
            Err(e) => {
                return Err(e);
            },
        };
        let records_bytes = serialize_records(postings.as_slice(), self.records.as_slice());
        assert(records_bytes@.len() == records_bytes.len());
        proof {
            law_opens(id_columns(rows), gathered.records);
        }
        Ok((fst_bytes, records_bytes))
    }
}

/// What the artifacts hold of a table: in `index.fst` the key of each row with the number of the
/// row, and in `records.bin` the ids of each row, and the records.
pub proof fn law_what_the_artifacts_hold(g: Gathered)
    ensures
        g.rows() == table(g.links),
        numbered(g.rows()).len() == g.rows().len(),
        forall|i: int|
            0 <= i < g.rows().len() ==> #[trigger] numbered(g.rows())[i] == (
                g.rows()[i].key,
                i as u64,
            ),
        id_columns(g.rows()).len() == g.rows().len(),
        forall|i: int|
            0 <= i < g.rows().len() ==> #[trigger] id_columns(g.rows())[i] == g.rows()[i].ids,
        g.fst() == fst_encoding(numbered(g.rows())),
        g.blob() == blob(id_columns(g.rows()), g.records),
{
}

} // verus!
