//! The engine: one memtable, the log that makes it durable, and the tables
//! that earlier memtables were flushed to, oldest first.
//!
//! A put first flushes the memtable if the pair would bring it to its budget,
//! then appends a record to the log, then changes the memtable. A get asks
//! the memtable and then the tables from the newest to the oldest.

use vstd::prelude::*;
use vstd::slice::slice_to_vec;
use crate::names::is_log_name;
use crate::names::log_file_name;
use crate::names::log_name;
use crate::names::sst_file_id;
use crate::names::sst_file_name;
use crate::names::table_id;
use crate::names::table_name;
use crate::order::entries_view;
use crate::order::map_size;
use crate::order::pairs_size;
use crate::order::is_listing;
use crate::order::lemma_listing_unique;
use crate::order::listing_of;
use crate::radix::lookup;
use crate::radix::opt_bytes;
use crate::radix::RadixTree;
use crate::sort::positions;
use crate::sort::sort_order;
use crate::sort::sorted_order;
use crate::sort::lemma_sorted_order_len;
use crate::sst::table_view;
use crate::sst::lemma_table_round_trip;
use crate::sst::table_bytes;
use crate::sst::table_get;
use crate::sst::whole_table;
use crate::sst::SSTReader;
use crate::sst::SSTWriter;
use crate::sst::TableView;
use crate::wal::appended;
use crate::wal::lemma_parsed_records_fit;
use crate::wal::log_body;
use crate::wal::log_records;
use crate::wal::lsns;
use crate::wal::read_log;
use crate::wal::records_fit;
use crate::wal::records_view;
use crate::wal::stored_log_end;
use crate::wal::stored_lsn;
use crate::wal::WalOp;
use crate::wal::WalRecord;
use crate::wal::WalRecordView;
use crate::wal::frame;
use crate::wal::record_fits;
use crate::wal::WalWriter;

verus! {

/// Where an engine lives and how many bytes its memtable may hold.
#[derive(Clone)]
pub struct Config {
    pub dir: String,
    pub memtable_max_bytes: usize,
}

/// What the engine refuses.
#[derive(Debug, Clone, Copy, PartialEq, Eq, Structural)]
pub enum EngineError {
    /// The key is empty.
    InvalidKey,
    /// The key or the value is longer than a record can say.
    TooLarge,
    /// The sequence numbers or the table ids are used up, or the log cannot
    /// grow any further on this machine.
    Full,
    /// A table cannot be read.
    Corrupt,
}

/// The greatest of the ids.
pub open spec fn max_id(ids: Seq<u64>) -> Option<u64>
    decreases ids.len(),
{
    if ids.len() == 0 {
        None
    } else {
        match max_id(ids.drop_last()) {
            Some(m) => if m > ids.last() {
                Some(m)
            } else {
                Some(ids.last())
            },
            None => Some(ids.last()),
        }
    }
}

/// The id for a new table: 1 for the first, and otherwise the id after the
/// greatest in use; none where the greatest possible id is in use.
pub open spec fn fresh_id(greatest: Option<u64>) -> Option<u64> {
    match greatest {
        None => Some(1),
        Some(g) => if g == u64::MAX {
            None
        } else {
            Some((g + 1) as u64)
        },
    }
}

/// An id for a new table that is greater than every id in use.
pub fn next_table_id(greatest: Option<u64>) -> (id: Option<u64>)
    ensures
        id == fresh_id(greatest),
{
    match greatest {
        None => Some(1),
        Some(g) => {
            if g == u64::MAX {
                None
            } else {
                Some(g + 1)
            }
        },
    }
}

/// No id is greater than the greatest.
pub proof fn lemma_max_id(ids: Seq<u64>, i: int)
    requires
        0 <= i < ids.len(),
    ensures
        max_id(ids) is Some,
        ids[i] <= max_id(ids).unwrap(),
    decreases ids.len(),
{
    if i < ids.len() - 1 {
        lemma_max_id(ids.drop_last(), i);
    }
}

/// A byte count, held to what a `usize` can say.
pub open spec fn clamp(n: nat) -> nat {
    if n > usize::MAX {
        usize::MAX as nat
    } else {
        n
    }
}

/// What a lookup finds in the tables, the newest asked first.
pub open spec fn probe(tables: Seq<TableView>, key: Seq<u8>) -> Result<Option<Seq<u8>>, EngineError>
    decreases tables.len(),
{
    if tables.len() == 0 {
        Ok(None)
    } else {
        match table_get(tables.last(), key) {
            Ok(Some(v)) => Ok(Some(v)),
            Ok(None) => probe(tables.drop_last(), key),
            Err(_) => Err(EngineError::Corrupt),
        }
    }
}

/// What an engine holds, as far as lookups can tell.
pub struct EngineView {
    /// The memtable's budget.
    pub max_bytes: nat,
    /// The memtable.
    pub mem: Map<Seq<u8>, Seq<u8>>,
    /// The bytes that were put into the memtable since it was last empty.
    pub mem_bytes: nat,
    /// The tables, oldest first.
    pub tables: Seq<TableView>,
}

impl EngineView {
    /// What a get returns.
    pub open spec fn get(self, key: Seq<u8>) -> Result<Option<Seq<u8>>, EngineError> {
        if key.len() == 0 {
            Err(EngineError::InvalidKey)
        } else if self.mem.dom().contains(key) {
            Ok(Some(self.mem[key]))
        } else {
            probe(self.tables, key)
        }
    }

    /// Whether a put of this pair flushes the memtable first.
    pub open spec fn flush_due(self, key: Seq<u8>, value: Seq<u8>) -> bool {
        self.mem_bytes + key.len() + value.len() >= self.max_bytes
    }

    /// The engine after a flush: the memtable has become the newest table.
    pub open spec fn flushed(self) -> EngineView {
        EngineView {
            max_bytes: self.max_bytes,
            mem: Map::empty(),
            mem_bytes: 0,
            tables: self.tables.push(whole_table(self.mem)),
        }
    }

    /// The engine after a put.
    pub open spec fn put(self, key: Seq<u8>, value: Seq<u8>) -> EngineView {
        let base = if self.flush_due(key, value) {
            self.flushed()
        } else {
            self
        };
        EngineView {
            max_bytes: base.max_bytes,
            mem: base.mem.insert(key, value),
            mem_bytes: clamp(base.mem_bytes + key.len() + value.len()),
            tables: base.tables,
        }
    }

    /// What a put returns: what the memtable held under the key, which is
    /// nothing after a flush.
    pub open spec fn put_returns(self, key: Seq<u8>, value: Seq<u8>) -> Option<Seq<u8>> {
        lookup(
            if self.flush_due(key, value) {
                Map::empty()
            } else {
                self.mem
            },
            key,
        )
    }

    /// The engine after a delete.
    pub open spec fn delete(self, key: Seq<u8>) -> EngineView {
        EngineView {
            max_bytes: self.max_bytes,
            mem: self.mem.remove(key),
            mem_bytes: self.mem_bytes,
            tables: self.tables,
        }
    }
}

/// The map after the record was applied to it: a put stores the record's
/// value, the empty value where the record carries none, and a delete
/// takes the key out.
pub open spec fn apply_record(m: Map<Seq<u8>, Seq<u8>>, r: WalRecordView) -> Map<Seq<u8>, Seq<u8>> {
    match r.op {
        WalOp::Put => m.insert(
            r.key,
            match r.value {
                Some(v) => v,
                None => Seq::empty(),
            },
        ),
        WalOp::Delete => m.remove(r.key),
    }
}

/// The map after the records were applied to it, the first first.
pub open spec fn apply_records(m: Map<Seq<u8>, Seq<u8>>, records: Seq<WalRecordView>) -> Map<
    Seq<u8>,
    Seq<u8>,
>
    decreases records.len(),
{
    if records.len() == 0 {
        m
    } else {
        apply_record(apply_records(m, records.drop_last()), records.last())
    }
}

/// The records in ascending order of their sequence numbers; records of one
/// number keep the order in which they stand in the log.
pub open spec fn arranged_records(records: Seq<WalRecordView>) -> Seq<WalRecordView> {
    sorted_order(lsns(records)).map_values(|i: int| records[i])
}

/// The map after a replay of the records.
pub open spec fn replayed(m: Map<Seq<u8>, Seq<u8>>, records: Seq<WalRecordView>) -> Map<
    Seq<u8>,
    Seq<u8>,
> {
    apply_records(m, arranged_records(records))
}

/// Whether no record has the empty key.
pub open spec fn keys_valid(records: Seq<WalRecordView>) -> bool {
    forall|i: int| 0 <= i < records.len() ==> (#[trigger] records[i]).key.len() > 0
}

/// The image of the log among the files of a directory: what the first file
/// named `wal.log` holds, and nothing where there is no such file.
pub open spec fn log_image_of(files: Seq<(Seq<u8>, Seq<u8>)>) -> Seq<u8>
    decreases files.len(),
{
    if files.len() == 0 {
        Seq::empty()
    } else if files[0].0 == log_name() {
        files[0].1
    } else {
        log_image_of(files.skip(1))
    }
}

/// The tables among the files of a directory, each with its id, in the order
/// of the files.
pub open spec fn table_files(files: Seq<(Seq<u8>, Seq<u8>)>) -> Seq<(u64, Seq<u8>)>
    decreases files.len(),
{
    if files.len() == 0 {
        Seq::empty()
    } else {
        let before = table_files(files.drop_last());
        match table_id(files.last().0) {
            Some(id) => before.push((id, files.last().1)),
            None => before,
        }
    }
}

/// The tables in ascending order of their ids, which is the bytewise order
/// of their file names.
pub open spec fn arranged_tables(tables: Seq<(u64, Seq<u8>)>) -> Seq<(u64, Seq<u8>)> {
    sorted_order(tables.map_values(|e: (u64, Seq<u8>)| e.0)).map_values(|i: int| tables[i])
}

/// Whether the index of every table can be read.
pub open spec fn tables_readable(tables: Seq<(u64, Seq<u8>)>) -> bool {
    forall|i: int| 0 <= i < tables.len() ==> table_view((#[trigger] tables[i]).1) is Some
}

/// The contents of a vector of tables with their ids.
pub open spec fn tables_view(tables: Seq<(u64, Vec<u8>)>) -> Seq<(u64, Seq<u8>)> {
    tables.map_values(|e: (u64, Vec<u8>)| (e.0, e.1@))
}

/// The files of a directory that holds the log `image` and the tables of
/// the ids `ids` with the images `images`: the log first, then each table
/// under the name of its id.
pub open spec fn dir_files_of(image: Seq<u8>, ids: Seq<u64>, images: Seq<Seq<u8>>) -> Seq<
    (Seq<u8>, Seq<u8>),
> {
    seq![(log_name(), image)] + Seq::new(ids.len(), |i: int| (table_name(ids[i]), images[i]))
}

/// The sequence number that follows `last`, where there is one.
pub open spec fn lsn_after(last: u64) -> u64 {
    if last == u64::MAX {
        u64::MAX
    } else {
        (last + 1) as u64
    }
}

/// Finds the image of the log among the files.
fn find_log(files: &Vec<(Vec<u8>, Vec<u8>)>) -> (image: Vec<u8>)
    ensures
        image@ == log_image_of(entries_view(files@)),
{
    let n: usize = files.len();
    let ghost fv = entries_view(files@);
    let mut i: usize = 0;
    assert(fv.skip(0) =~= fv);
    while i < n
        invariant
            i <= n,
            n == files@.len(),
            fv == entries_view(files@),
            log_image_of(fv) == log_image_of(fv.skip(i as int)),
        decreases n - i,
    {
        proof {
            assert(fv.skip(i as int)[0] == fv[i as int]);
            assert(fv.skip(i as int).skip(1) =~= fv.skip(i + 1));
        }
        if is_log_name(files[i].0.as_slice()) {
            return slice_to_vec(files[i].1.as_slice());
        }
        i = i + 1;
    }
    Vec::new()
}

/// Finds the tables among the files.
fn find_tables(files: &Vec<(Vec<u8>, Vec<u8>)>) -> (found: Vec<(u64, Vec<u8>)>)
    ensures
        tables_view(found@) == table_files(entries_view(files@)),
{
    let n: usize = files.len();
    let ghost fv = entries_view(files@);
    let mut found: Vec<(u64, Vec<u8>)> = Vec::new();
    let mut i: usize = 0;
    assert(fv.take(0) =~= Seq::empty());
    assert(tables_view(found@) =~= table_files(fv.take(0)));
    while i < n
        invariant
            i <= n,
            n == files@.len(),
            fv == entries_view(files@),
            tables_view(found@) == table_files(fv.take(i as int)),
        decreases n - i,
    {
        proof {
            assert(fv.take(i + 1).drop_last() =~= fv.take(i as int));
            assert(fv.take(i + 1).last() == fv[i as int]);
        }
        let ghost before = tables_view(found@);
        match sst_file_id(files[i].0.as_slice()) {
            Some(id) => {
                found.push((id, slice_to_vec(files[i].1.as_slice())));
                assert(tables_view(found@) =~= before.push((id, fv[i as int].1)));
            },
            None => {},
        }
        i = i + 1;
    }
    assert(fv.take(n as int) =~= fv);
    found
}

/// Opens the tables, in ascending order of their ids.
fn open_tables(found: &Vec<(u64, Vec<u8>)>) -> (r: Result<Vec<(u64, SSTReader)>, EngineError>)
    ensures
        match r {
            Ok(readers) => {
                &&& tables_readable(arranged_tables(tables_view(found@)))
                &&& readers@.len() == found@.len()
                &&& forall|t: int|
                    0 <= t < readers@.len() ==> (#[trigger] readers@[t]).1.wf() && opened_as(
                        readers@[t],
                        arranged_tables(tables_view(found@))[t],
                    )
            },
            Err(e) => e == EngineError::Corrupt && !tables_readable(
                arranged_tables(tables_view(found@)),
            ),
        },
{
    let n: usize = found.len();
    let ghost tv = tables_view(found@);
    let mut ids: Vec<u64> = Vec::new();
    let mut i: usize = 0;
    while i < n
        invariant
            i <= n,
            n == found@.len(),
            tv == tables_view(found@),
            ids@ == tv.map_values(|e: (u64, Seq<u8>)| e.0).take(i as int),
        decreases n - i,
    {
        ids.push(found[i].0);
        i = i + 1;
        assert(ids@ =~= tv.map_values(|e: (u64, Seq<u8>)| e.0).take(i as int));
    }
    assert(ids@ =~= tv.map_values(|e: (u64, Seq<u8>)| e.0));
    let order = sort_order(&ids);
    let ghost arranged = arranged_tables(tv);
    proof {
        lemma_sorted_order_len(ids@);
    }
    let mut readers: Vec<(u64, SSTReader)> = Vec::new();
    let mut t: usize = 0;
    while t < n
        invariant
            t <= n,
            n == found@.len(),
            n == order@.len(),
            tv == tables_view(found@),
            arranged == arranged_tables(tv),
            arranged.len() == n,
            positions(order@) == sorted_order(tv.map_values(|e: (u64, Seq<u8>)| e.0)),
            forall|j: int| 0 <= j < order@.len() ==> #[trigger] order@[j] < n,
            readers@.len() == t,
            forall|j: int|
                0 <= j < t ==> (#[trigger] readers@[j]).1.wf() && opened_as(readers@[j], arranged[j]),
        decreases n - t,
    {
        let at: usize = order[t];
        proof {
            assert(positions(order@)[t as int] == at as int);
            assert(arranged[t as int] == tv[at as int]);
            assert(tv[at as int] == (found@[at as int].0, found@[at as int].1@));
        }
        match SSTReader::open(slice_to_vec(found[at].1.as_slice())) {
            Ok(reader) => {
                let ghost before = readers@;
                readers.push((found[at].0, reader));
                assert forall|j: int| 0 <= j < t + 1 implies (#[trigger] readers@[j]).1.wf()
                    && opened_as(readers@[j], arranged[j]) by {
                    if j < t {
                        assert(readers@[j] == before[j]);
                    }
                }
            },
            Err(_) => {
                return Err(EngineError::Corrupt);
            },
        }
        t = t + 1;
    }
    proof {
        assert forall|j: int| 0 <= j < arranged.len() implies table_view(
            (#[trigger] arranged[j]).1,
        ) is Some by {
            assert(opened_as(readers@[j], arranged[j]));
        }
    }
    Ok(readers)
}

/// Whether the reader is what opening the table gives.
pub open spec fn opened_as(reader: (u64, SSTReader), table: (u64, Seq<u8>)) -> bool {
    &&& reader.0 == table.0
    &&& reader.1.image() == table.1
    &&& table_view(table.1) == Some(reader.1@)
}

/// Applies the records to the memtable in the order given.
fn replay_into(mem: &mut RadixTree, records: &Vec<WalRecord>, order: &Vec<usize>)
    requires
        old(mem).wf(),
        mem_fits(old(mem)@),
        keys_valid(records_view(records@)),
        records_fit(records_view(records@)),
        order@.len() == records@.len(),
        forall|j: int| 0 <= j < order@.len() ==> #[trigger] order@[j] < records@.len(),
    ensures
        final(mem).wf(),
        mem_fits(final(mem)@),
        final(mem)@ == apply_records(
            old(mem)@,
            positions(order@).map_values(|i: int| records_view(records@)[i]),
        ),
{
    let n: usize = order.len();
    let ghost rv = records_view(records@);
    let ghost arranged = positions(order@).map_values(|i: int| rv[i]);
    let mut t: usize = 0;
    assert(arranged.take(0) =~= Seq::empty());
    while t < n
        invariant
            t <= n,
            n == order@.len(),
            n == records@.len(),
            rv == records_view(records@),
            arranged == positions(order@).map_values(|i: int| rv[i]),
            keys_valid(rv),
            records_fit(rv),
            forall|j: int| 0 <= j < order@.len() ==> #[trigger] order@[j] < records@.len(),
            mem.wf(),
            mem_fits(mem@),
            mem@ == apply_records(old(mem)@, arranged.take(t as int)),
        decreases n - t,
    {
        let at: usize = order[t];
        let ghost before = mem@;
        proof {
            assert(arranged.take(t + 1).drop_last() =~= arranged.take(t as int));
            assert(arranged.take(t + 1).last() == rv[at as int]);
            assert(rv[at as int] == records@[at as int]@);
            assert(rv[at as int].key.len() > 0);
            assert(rv[at as int].key.len() <= u32::MAX);
        }
        match records[at].op {
            WalOp::Put => {
                let value: Vec<u8> = match &records[at].value {
                    Some(v) => v.clone(),
                    None => Vec::new(),
                };
                let put = mem.put(records[at].key.as_slice(), value);
                proof {
                    assert forall|k: Seq<u8>| #[trigger] mem@.dom().contains(k) implies k.len()
                        <= u32::MAX && mem@[k].len() <= u32::MAX by {
                        if k != rv[at as int].key {
                            assert(before.dom().contains(k));
                        }
                    }
                }
            },
            WalOp::Delete => {
                let removed = mem.remove(records[at].key.as_slice());
                proof {
                    assert forall|k: Seq<u8>| #[trigger] mem@.dom().contains(k) implies k.len()
                        <= u32::MAX && mem@[k].len() <= u32::MAX by {
                        assert(before.dom().contains(k));
                    }
                }
            },
        }
        t = t + 1;
    }
    assert(arranged.take(n as int) =~= arranged);
}

/// The bytes of the keys and values that the memtable holds, added up.
fn memtable_size(mem: &RadixTree) -> (size: usize)
    requires
        mem.wf(),
    ensures
        size == clamp(map_size(mem@)),
{
    let entries = mem.iter_all();
    let ghost ev = entries_view(entries@);
    proof {
        assert(is_listing(listing_of(mem@), mem@));
        lemma_listing_unique(ev, listing_of(mem@), mem@);
    }
    let n: usize = entries.len();
    let mut size: usize = 0;
    let mut i: usize = 0;
    assert(ev.take(0) =~= Seq::empty());
    while i < n
        invariant
            i <= n,
            n == entries@.len(),
            ev == entries_view(entries@),
            size == clamp(pairs_size(ev.take(i as int))),
        decreases n - i,
    {
        proof {
            assert(ev.take(i + 1).drop_last() =~= ev.take(i as int));
            assert(ev.take(i + 1).last() == ev[i as int]);
            assert(ev[i as int] == (entries@[i as int].0@, entries@[i as int].1@));
        }
        let add: u128 = entries[i].0.len() as u128 + entries[i].1.len() as u128;
        size = if add > (usize::MAX - size) as u128 {
            usize::MAX
        } else {
            size + add as usize
        };
        i = i + 1;
    }
    assert(ev.take(n as int) =~= ev);
    size
}

/// What each reader holds.
pub open spec fn reader_views(readers: Seq<(u64, SSTReader)>) -> Seq<TableView> {
    readers.map_values(|e: (u64, SSTReader)| e.1@)
}

/// The id of each reader's table.
pub open spec fn reader_ids(readers: Seq<(u64, SSTReader)>) -> Seq<u64> {
    readers.map_values(|e: (u64, SSTReader)| e.0)
}

/// The image of each reader's table.
pub open spec fn reader_images(readers: Seq<(u64, SSTReader)>) -> Seq<Seq<u8>> {
    readers.map_values(|e: (u64, SSTReader)| e.1.image())
}

/// Whether every key and value of the map fits a 4-byte length.
pub open spec fn mem_fits(m: Map<Seq<u8>, Seq<u8>>) -> bool {
    forall|k: Seq<u8>| #[trigger] m.dom().contains(k) ==> k.len() <= u32::MAX && m[k].len() <= u32::MAX
}

/// A storage engine on the files of one directory.
pub struct Engine {
    cfg: Config,
    wal: WalWriter,
    memtable: RadixTree,
    memtable_bytes: usize,
    sst_readers: Vec<(u64, SSTReader)>,
    next_lsn: u64,
}

impl View for Engine {
    type V = EngineView;

    closed spec fn view(&self) -> EngineView {
        EngineView {
            max_bytes: self.cfg.memtable_max_bytes as nat,
            mem: self.memtable@,
            mem_bytes: self.memtable_bytes as nat,
            tables: reader_views(self.sst_readers@),
        }
    }
}

impl Engine {
    /// The log.
    pub closed spec fn log(&self) -> WalWriter {
        self.wal
    }

    /// The settings that the engine was opened with.
    pub closed spec fn settings(&self) -> Config {
        self.cfg
    }

    /// The sequence number of the next record.
    pub closed spec fn next_lsn(&self) -> u64 {
        self.next_lsn
    }

    /// The ids of the tables, oldest first.
    pub closed spec fn table_ids(&self) -> Seq<u64> {
        reader_ids(self.sst_readers@)
    }

    /// The images of the tables, oldest first.
    pub closed spec fn table_images(&self) -> Seq<Seq<u8>> {
        reader_images(self.sst_readers@)
    }

    /// The parts of the engine are in order, what the memtable holds can be
    /// written to a record and to a table, and sequence numbers start at 1.
    pub closed spec fn wf(&self) -> bool {
        &&& self.wal.wf()
        &&& self.memtable.wf()
        &&& mem_fits(self.memtable@)
        &&& self.next_lsn >= 1
        &&& forall|i: int| 0 <= i < self.sst_readers@.len() ==> (#[trigger] self.sst_readers@[i]).1.wf()
    }

    /// Why a put or a delete is refused, if it is: `may_flush` says whether
    /// the operation flushes the memtable when the budget is reached.
    pub open spec fn refusal(&self, key: Seq<u8>, value: Seq<u8>, may_flush: bool) -> Option<
        EngineError,
    > {
        let due = may_flush && self@.flush_due(key, value);
        if key.len() == 0 {
            Some(EngineError::InvalidKey)
        } else if key.len() > u32::MAX || value.len() > u32::MAX {
            Some(EngineError::TooLarge)
        } else if self.next_lsn() == u64::MAX {
            Some(EngineError::Full)
        } else if due && max_id(self.table_ids()) == Some(u64::MAX) {
            Some(EngineError::Full)
        } else if !record_fits(
            if due {
                16
            } else {
                self.log().log_end()
            },
            key,
            value,
        ) {
            Some(EngineError::Full)
        } else {
            None
        }
    }

    /// What a flush does to `pre`: the memtable is written out as a new
    /// table, whose id follows the greatest id in use, and the memtable and
    /// the log start empty.
    pub open spec fn flushed_from(&self, pre: Engine) -> bool {
        &&& self@ == pre@.flushed()
        &&& self.settings() == pre.settings()
        &&& self.next_lsn() == pre.next_lsn()
        &&& self.log().image() == Seq::<u8>::empty()
        &&& self.log().log_end() == 16
        &&& self.log().last_lsn() == 0
        &&& self.table_images() == pre.table_images().push(
            table_bytes(0, Seq::empty(), listing_of(pre@.mem)),
        )
        &&& self.table_ids().len() == pre.table_ids().len() + 1
        &&& self.table_ids().drop_last() == pre.table_ids()
        &&& Some(self.table_ids().last()) == fresh_id(max_id(pre.table_ids()))
        &&& forall|i: int|
            0 <= i < pre.table_ids().len() ==> #[trigger] pre.table_ids()[i] < self.table_ids().last()
    }

    /// What an append does to the log that held `image` and ended at `end`.
    pub open spec fn appended_to(
        &self,
        image: Seq<u8>,
        end: u64,
        lsn: u64,
        code: u8,
        key: Seq<u8>,
        value: Seq<u8>,
    ) -> bool {
        &&& self.log().image() == appended(image, end as int, lsn, frame(lsn, code, key, value))
        &&& self.log().log_end() == end + 21 + key.len() + value.len()
        &&& self.log().last_lsn() == lsn
        &&& self.next_lsn() == lsn + 1
    }

    /// What opening the files of a directory gives: the log and the tables
    /// as the files hold them, the tables in ascending order of their ids,
    /// the memtable as the replay of the log makes it, and sequence numbers
    /// that go on after the last one of the log.
    pub open spec fn opened_from(&self, max_bytes: usize, files: Seq<(Seq<u8>, Seq<u8>)>) -> bool {
        let image = log_image_of(files);
        let tables = arranged_tables(table_files(files));
        &&& self@.max_bytes == max_bytes
        &&& self@.mem == replayed(Map::empty(), log_records(image))
        &&& self@.mem_bytes == clamp(map_size(self@.mem))
        &&& self@.tables == tables.map_values(|e: (u64, Seq<u8>)| table_view(e.1).unwrap())
        &&& self.table_ids() == tables.map_values(|e: (u64, Seq<u8>)| e.0)
        &&& self.table_images() == tables.map_values(|e: (u64, Seq<u8>)| e.1)
        &&& self.log().image() == image
        &&& self.log().log_end() == stored_log_end(image)
        &&& self.log().last_lsn() == stored_lsn(image)
        &&& self.next_lsn() == lsn_after(stored_lsn(image))
    }

    /// The files of the engine's directory: the log, and each table under
    /// the name of its id.
    pub open spec fn dir(&self) -> Seq<(Seq<u8>, Seq<u8>)> {
        dir_files_of(self.log().image(), self.table_ids(), self.table_images())
    }

    /// There is one id and one image for each table, and each table holds
    /// what its image says.
    pub proof fn lemma_tables_hold_images(&self)
        requires
            self.wf(),
        ensures
            self.table_ids().len() == self@.tables.len(),
            self.table_images().len() == self@.tables.len(),
            forall|i: int|
                0 <= i < self@.tables.len() ==> table_view(#[trigger] self.table_images()[i]) == Some(
                    self@.tables[i],
                ),
    {
        assert forall|i: int| 0 <= i < self@.tables.len() implies table_view(
            #[trigger] self.table_images()[i],
        ) == Some(self@.tables[i]) by {
            self.sst_readers@[i].1.lemma_view_of_image();
        }
    }

    /// Opens an engine on the files of its directory, each given by its name
    /// and its contents. The file `wal.log` is the log, the files named
    /// `sst-<id>.dat` are the tables, and other files are passed over. A
    /// table that cannot be read, and a record with the empty key, is fatal.
    pub fn open(cfg: Config, files: Vec<(Vec<u8>, Vec<u8>)>) -> (r: Result<Engine, EngineError>)
        ensures
            Engine::open_effect(cfg.memtable_max_bytes, entries_view(files@), r),
            r matches Ok(engine) ==> engine.settings() == cfg,
    {
        let ghost fv = entries_view(files@);
        let image = find_log(&files);
        let wal = WalWriter::open(image, false);
        let found = find_tables(&files);
        let readers = match open_tables(&found) {
            Ok(readers) => readers,
            Err(e) => {
                return Err(e);
            },
        };
        let last: u64 = wal.last_sequence_number();
        let next_lsn: u64 = if last == u64::MAX {
            u64::MAX
        } else {
            last + 1
        };
        let mut engine = Engine {
            cfg,
            wal,
            memtable: RadixTree::new(),
            memtable_bytes: 0,
            sst_readers: readers,
            next_lsn,
        };
        proof {
            let tables = arranged_tables(table_files(fv));
            lemma_sorted_order_len(table_files(fv).map_values(|e: (u64, Seq<u8>)| e.0));
            assert forall|t: int| 0 <= t < engine.sst_readers@.len() implies opened_as(
                #[trigger] engine.sst_readers@[t],
                tables[t],
            ) by {}
            assert(reader_views(engine.sst_readers@) =~= tables.map_values(
                |e: (u64, Seq<u8>)| table_view(e.1).unwrap(),
            ));
            assert(reader_ids(engine.sst_readers@) =~= tables.map_values(|e: (u64, Seq<u8>)| e.0));
            assert(reader_images(engine.sst_readers@) =~= tables.map_values(
                |e: (u64, Seq<u8>)| e.1,
            ));
        }
        match engine.replay_records() {
            Ok(()) => Ok(engine),
            Err(e) => Err(e),
        }
    }

    /// Replays the log into the memtable: applies its records in ascending
    /// order of their sequence numbers, a put as a put and a delete as a
    /// removal, and counts the bytes that the memtable then holds. A record
    /// with the empty key is refused before any record is applied.
    pub fn replay_records(&mut self) -> (r: Result<(), EngineError>)
        requires
            old(self).wf(),
        ensures
            final(self).wf(),
            !keys_valid(log_records(old(self).log().image())) ==> r == Err::<(), EngineError>(
                EngineError::InvalidKey,
            ) && *final(self) == *old(self),
            keys_valid(log_records(old(self).log().image())) ==> {
                &&& r == Ok::<(), EngineError>(())
                &&& final(self)@.mem == replayed(old(self)@.mem, log_records(old(self).log().image()))
                &&& final(self)@.mem_bytes == clamp(map_size(final(self)@.mem))
                &&& final(self)@.max_bytes == old(self)@.max_bytes
                &&& final(self).settings() == old(self).settings()
                &&& final(self)@.tables == old(self)@.tables
                &&& final(self).log() == old(self).log()
                &&& final(self).next_lsn() == old(self).next_lsn()
                &&& final(self).tables_after(*old(self), false)
            },
    {
        let records = read_log(self.wal.bytes().as_slice());
        let ghost rv = records_view(records@);
        proof {
            lemma_parsed_records_fit(log_body(self.wal.image()));
        }
        let n: usize = records.len();
        let mut keys: Vec<u64> = Vec::new();
        let mut i: usize = 0;
        while i < n
            invariant
                i <= n,
                n == records@.len(),
                rv == records_view(records@),
                rv == log_records(old(self).log().image()),
                *self == *old(self),
                self.wf(),
                keys@ == lsns(rv).take(i as int),
                forall|j: int| 0 <= j < i ==> (#[trigger] rv[j]).key.len() > 0,
            decreases n - i,
        {
            assert(rv[i as int] == records@[i as int]@);
            if records[i].key.len() == 0 {
                return Err(EngineError::InvalidKey);
            }
            keys.push(records[i].lsn);
            i = i + 1;
            assert(keys@ =~= lsns(rv).take(i as int));
        }
        assert(keys@ =~= lsns(rv));
        let order = sort_order(&keys);
        replay_into(&mut self.memtable, &records, &order);
        self.memtable_bytes = memtable_size(&self.memtable);
        Ok(())
    }

    /// The files of the engine's directory as they stand: the log, and each
    /// table under the name of its id.
    pub fn files(&self) -> (files: Vec<(Vec<u8>, Vec<u8>)>)
        ensures
            entries_view(files@) == self.dir(),
    {
        let mut files: Vec<(Vec<u8>, Vec<u8>)> = Vec::new();
        files.push((log_file_name(), slice_to_vec(self.wal.bytes().as_slice())));
        let n: usize = self.sst_readers.len();
        let mut i: usize = 0;
        let ghost dir = self.dir();
        assert(entries_view(files@) =~= dir.take(1));
        while i < n
            invariant
                i <= n,
                n == self.sst_readers@.len(),
                dir == self.dir(),
                dir.len() == n + 1,
                entries_view(files@) == dir.take(i + 1),
            decreases n - i,
        {
            let name = sst_file_name(self.sst_readers[i].0);
            let image = slice_to_vec(self.sst_readers[i].1.bytes().as_slice());
            proof {
                assert(self.table_ids()[i as int] == self.sst_readers@[i as int].0);
                assert(self.table_images()[i as int] == self.sst_readers@[i as int].1.image());
                assert(dir[i + 1] == (name@, image@));
            }
            let ghost before = entries_view(files@);
            files.push((name, image));
            i = i + 1;
            assert(entries_view(files@) =~= before.push(dir[i as int]));
            assert(entries_view(files@) =~= dir.take(i + 1));
        }
        assert(dir.take(n + 1) =~= dir);
        files
    }

    /// The image of the log file.
    pub fn log_bytes(&self) -> (b: &Vec<u8>)
        ensures
            b@ == self.log().image(),
    {
        self.wal.bytes()
    }

    /// The number of tables.
    pub fn table_count(&self) -> (n: usize)
        ensures
            n == self.table_ids().len(),
    {
        self.sst_readers.len()
    }

    /// The name of the file of the table at `i`, counted from the oldest.
    pub fn table_file_name(&self, i: usize) -> (name: Vec<u8>)
        requires
            i < self.table_ids().len(),
        ensures
            name@ == table_name(self.table_ids()[i as int]),
    {
        sst_file_name(self.sst_readers[i].0)
    }

    /// The image of the table at `i`, counted from the oldest.
    pub fn table_bytes(&self, i: usize) -> (b: &Vec<u8>)
        requires
            i < self.table_ids().len(),
        ensures
            b@ == self.table_images()[i as int],
    {
        self.sst_readers[i].1.bytes()
    }

    /// The settings that the engine was opened with.
    pub fn config(&self) -> (cfg: &Config)
        ensures
            *cfg == self.settings(),
            cfg.memtable_max_bytes == self@.max_bytes,
    {
        &self.cfg
    }

    /// Why the files of a directory cannot be opened, if they cannot: a
    /// table that cannot be read comes first, a record with the empty key second.
    pub open spec fn open_error(files: Seq<(Seq<u8>, Seq<u8>)>) -> Option<EngineError> {
        if !tables_readable(arranged_tables(table_files(files))) {
            Some(EngineError::Corrupt)
        } else if !keys_valid(log_records(log_image_of(files))) {
            Some(EngineError::InvalidKey)
        } else {
            None
        }
    }

    /// What opening gives: the error, where there is one, and otherwise the
    /// engine that the files describe.
    pub open spec fn open_effect(
        max_bytes: usize,
        files: Seq<(Seq<u8>, Seq<u8>)>,
        r: Result<Engine, EngineError>,
    ) -> bool {
        match Engine::open_error(files) {
            Some(e) => r matches Err(err) && err == e,
            None => r matches Ok(engine) && engine.wf() && engine.opened_from(max_bytes, files),
        }
    }

    /// What a put does: a refused put says why and changes nothing; any
    /// other flushes if the pair would bring the memtable to its budget,
    /// appends the record to the log under the next sequence number, stores
    /// the pair in the memtable, and returns what the memtable held.
    pub open spec fn put_effect(
        pre: Engine,
        post: Engine,
        key: Seq<u8>,
        val: Seq<u8>,
        r: Result<Option<Vec<u8>>, EngineError>,
    ) -> bool {
        match pre.refusal(key, val, true) {
            Some(e) => r == Err::<Option<Vec<u8>>, EngineError>(e) && post == pre,
            None => {
                let due = pre@.flush_due(key, val);
                &&& r is Ok
                &&& opt_bytes(r.unwrap()) == pre@.put_returns(key, val)
                &&& post@ == pre@.put(key, val)
                &&& post.settings() == pre.settings()
                &&& post.appended_to(
                    if due {
                        Seq::empty()
                    } else {
                        pre.log().image()
                    },
                    if due {
                        16
                    } else {
                        pre.log().log_end()
                    },
                    pre.next_lsn(),
                    1,
                    key,
                    val,
                )
                &&& post.tables_after(pre, due)
            },
        }
    }

    /// What a delete does: a refused delete says why and changes nothing;
    /// any other appends the record to the log under the next sequence
    /// number, takes the key out of the memtable, and returns what the
    /// memtable held. The tables stay as they are.
    pub open spec fn delete_effect(
        pre: Engine,
        post: Engine,
        key: Seq<u8>,
        r: Result<Option<Vec<u8>>, EngineError>,
    ) -> bool {
        match pre.refusal(key, Seq::empty(), false) {
            Some(e) => r == Err::<Option<Vec<u8>>, EngineError>(e) && post == pre,
            None => {
                &&& r is Ok
                &&& opt_bytes(r.unwrap()) == lookup(pre@.mem, key)
                &&& post@ == pre@.delete(key)
                &&& post.settings() == pre.settings()
                &&& post.appended_to(
                    pre.log().image(),
                    pre.log().log_end(),
                    pre.next_lsn(),
                    2,
                    key,
                    Seq::empty(),
                )
                &&& post.tables_after(pre, false)
            },
        }
    }

    /// The greatest id of a table.
    fn greatest_id(&self) -> (g: Option<u64>)
        ensures
            g == max_id(self.table_ids()),
    {
        let n: usize = self.sst_readers.len();
        let mut g: Option<u64> = None;
        let mut i: usize = 0;
        let ghost ids = reader_ids(self.sst_readers@);
        assert(ids.take(0) =~= Seq::<u64>::empty());
        while i < n
            invariant
                i <= n,
                n == self.sst_readers@.len(),
                ids == reader_ids(self.sst_readers@),
                g == max_id(ids.take(i as int)),
            decreases n - i,
        {
            let id: u64 = self.sst_readers[i].0;
            proof {
                assert(ids.take(i + 1).drop_last() =~= ids.take(i as int));
                assert(ids.take(i + 1).last() == id);
            }
            g = match g {
                Some(m) => if m > id {
                    Some(m)
                } else {
                    Some(id)
                },
                None => Some(id),
            };
            i = i + 1;
        }
        assert(ids.take(n as int) =~= ids);
        g
    }

    /// Writes the memtable out as a new table, which becomes the newest, and
    /// starts an empty memtable and an empty log.
    pub fn flush(&mut self) -> (r: Result<(), EngineError>)
        requires
            old(self).wf(),
        ensures
            final(self).wf(),
            max_id(old(self).table_ids()) == Some(u64::MAX) ==> r == Err::<(), EngineError>(
                EngineError::Full,
            ) && *final(self) == *old(self),
            max_id(old(self).table_ids()) != Some(u64::MAX) ==> r == Ok::<(), EngineError>(())
                && final(self).flushed_from(*old(self)),
    {
        let greatest = self.greatest_id();
        let id: u64 = match next_table_id(greatest) {
            Some(id) => id,
            None => {
                return Err(EngineError::Full);
            },
        };
        let entries = self.memtable.iter_all();
        let ghost ev = entries_view(entries@);
        let ghost mem = self.memtable@;
        proof {
            assert forall|i: int| 0 <= i < ev.len() implies (#[trigger] ev[i]).0.len() <= u32::MAX
                && ev[i].1.len() <= u32::MAX by {
                assert(mem.dom().contains(ev[i].0));
            }
            assert(is_listing(listing_of(mem), mem));
            lemma_listing_unique(ev, listing_of(mem), mem);
        }
        let mut writer = SSTWriter::open();
        let written = writer.write_all(entries);
        let image: Vec<u8> = writer.into_bytes();
        let total: usize = image.len();
        proof {
            assert(image@ =~= table_bytes(0, Seq::empty(), ev));
            lemma_table_round_trip(ev, mem);
        }
        let ghost before = self.sst_readers@;
        match SSTReader::open(image) {
            Ok(reader) => {
                self.sst_readers.push((id, reader));
            },
            Err(_) => {
                assert(false);
                return Err(EngineError::Corrupt);
            },
        }
        self.memtable = RadixTree::new();
        self.memtable_bytes = 0;
        self.wal = WalWriter::open(Vec::new(), true);
        proof {
            let after = self.sst_readers@;
            assert(reader_views(after) =~= reader_views(before).push(whole_table(mem)));
            assert(reader_images(after) =~= reader_images(before).push(
                table_bytes(0, Seq::empty(), listing_of(mem)),
            ));
            assert(reader_ids(after) =~= reader_ids(before).push(id));
            assert(reader_ids(after).drop_last() =~= reader_ids(before));
            assert forall|i: int| 0 <= i < reader_ids(before).len() implies #[trigger] reader_ids(
                before,
            )[i] < id by {
                lemma_max_id(reader_ids(before), i);
            }
            assert forall|i: int| 0 <= i < after.len() implies (#[trigger] after[i]).1.wf() by {
                if i < before.len() {
                    assert(after[i] == before[i]);
                }
            }
        }
        Ok(())
    }

    /// The value under `key`: what the memtable holds, and otherwise what
    /// the newest table that has the key holds.
    pub fn get(&self, key: &[u8]) -> (r: Result<Option<Vec<u8>>, EngineError>)
        requires
            self.wf(),
        ensures
            got(r) == self@.get(key@),
    {
        if key.len() == 0 {
            return Err(EngineError::InvalidKey);
        }
        match self.memtable.get(key) {
            Ok(Some(v)) => {
                return Ok(Some(v));
            },
            Ok(None) => {},
            Err(_) => {
                assert(false);
                return Err(EngineError::InvalidKey);
            },
        }
        let ghost tables = reader_views(self.sst_readers@);
        let mut i: usize = self.sst_readers.len();
        assert(tables.take(i as int) =~= tables);
        while i > 0
            invariant
                i <= self.sst_readers@.len(),
                self.wf(),
                tables == reader_views(self.sst_readers@),
                key@.len() > 0,
                !self.memtable@.dom().contains(key@),
                probe(tables, key@) == probe(tables.take(i as int), key@),
            decreases i,
        {
            i = i - 1;
            proof {
                assert(tables.take(i + 1).drop_last() =~= tables.take(i as int));
                assert(tables.take(i + 1).last() == self.sst_readers@[i as int].1@);
            }
            match self.sst_readers[i].1.get(key) {
                Ok(Some(v)) => {
                    return Ok(Some(v));
                },
                Ok(None) => {},
                Err(_) => {
                    return Err(EngineError::Corrupt);
                },
            }
        }
        Ok(None)
    }

    /// Stores `val` under `key`: flushes first if the pair would bring the
    /// memtable to its budget, appends the record to the log, and then
    /// changes the memtable. Hands back what the memtable held under the
    /// key. A refused put changes nothing.
    pub fn put(&mut self, key: &[u8], val: &[u8]) -> (r: Result<Option<Vec<u8>>, EngineError>)
        requires
            old(self).wf(),
        ensures
            final(self).wf(),
            Engine::put_effect(*old(self), *final(self), key@, val@, r),
    {
        if key.len() == 0 {
            return Err(EngineError::InvalidKey);
        }
        if key.len() > u32::MAX as usize || val.len() > u32::MAX as usize {
            return Err(EngineError::TooLarge);
        }
        if self.next_lsn == u64::MAX {
            return Err(EngineError::Full);
        }
        let size: u64 = key.len() as u64 + val.len() as u64;
        let due: bool = self.memtable_bytes as u128 + size as u128 >= self.cfg.memtable_max_bytes as u128;
        if due {
            let greatest = self.greatest_id();
            match greatest {
                Some(g) => {
                    if g == u64::MAX {
                        return Err(EngineError::Full);
                    }
                },
                None => {},
            }
        }
        let end: u64 = if due {
            16
        } else {
            self.wal.end_of_log()
        };
        if end > usize::MAX as u64 || 21 + size > usize::MAX as u64 - end {
            return Err(EngineError::Full);
        }
        if due {
            match self.flush() {
                Ok(()) => {},
                Err(_) => {
                    assert(false);
                    return Err(EngineError::Full);
                },
            }
        }
        let ghost base = *self;
        let lsn: u64 = self.next_lsn;
        match self.wal.append_put(lsn, key, val) {
            Ok(()) => {},
            Err(_) => {
                assert(false);
                return Err(EngineError::Full);
            },
        }
        self.next_lsn = lsn + 1;
        let prev = match self.memtable.put(key, slice_to_vec(val)) {
            Ok(prev) => prev,
            Err(_) => {
                assert(false);
                return Err(EngineError::InvalidKey);
            },
        };
        self.memtable_bytes = if size > (usize::MAX - self.memtable_bytes) as u64 {
            usize::MAX
        } else {
            self.memtable_bytes + size as usize
        };
        proof {
            assert(mem_fits(self.memtable@)) by {
                assert forall|k: Seq<u8>| #[trigger] self.memtable@.dom().contains(k) implies k.len()
                    <= u32::MAX && self.memtable@[k].len() <= u32::MAX by {
                    if k != key@ {
                        assert(base.memtable@.dom().contains(k));
                    }
                }
            }
        }
        Ok(prev)
    }

    /// How the tables of `pre` have become the tables of `self`: after a
    /// flush there is one more, and without one they are the same.
    pub open spec fn tables_after(&self, pre: Engine, flushed: bool) -> bool {
        if flushed {
            &&& self.table_images() == pre.table_images().push(
                table_bytes(0, Seq::empty(), listing_of(pre@.mem)),
            )
            &&& self.table_ids().len() == pre.table_ids().len() + 1
            &&& self.table_ids().drop_last() == pre.table_ids()
            &&& Some(self.table_ids().last()) == fresh_id(max_id(pre.table_ids()))
            &&& forall|i: int|
                0 <= i < pre.table_ids().len() ==> #[trigger] pre.table_ids()[i]
                    < self.table_ids().last()
        } else {
            &&& self.table_images() == pre.table_images()
            &&& self.table_ids() == pre.table_ids()
        }
    }

    /// Takes `key` out of the memtable, after the record of the delete was
    /// appended to the log, and hands back what the memtable held under the
    /// key. A delete never flushes. A refused delete changes nothing.
    pub fn delete(&mut self, key: &[u8]) -> (r: Result<Option<Vec<u8>>, EngineError>)
        requires
            old(self).wf(),
        ensures
            final(self).wf(),
            Engine::delete_effect(*old(self), *final(self), key@, r),
    {
        if key.len() == 0 {
            return Err(EngineError::InvalidKey);
        }
        if key.len() > u32::MAX as usize {
            return Err(EngineError::TooLarge);
        }
        if self.next_lsn == u64::MAX {
            return Err(EngineError::Full);
        }
        let end: u64 = self.wal.end_of_log();
        if end > usize::MAX as u64 || 21 + key.len() as u64 > usize::MAX as u64 - end {
            return Err(EngineError::Full);
        }
        let ghost base = *self;
        let lsn: u64 = self.next_lsn;
        match self.wal.append_delete(lsn, key) {
            Ok(()) => {},
            Err(_) => {
                assert(false);
                return Err(EngineError::Full);
            },
        }
        self.next_lsn = lsn + 1;
        let prev = match self.memtable.remove(key) {
            Ok(prev) => prev,
            Err(_) => {
                assert(false);
                return Err(EngineError::InvalidKey);
            },
        };
        proof {
            assert(mem_fits(self.memtable@)) by {
                assert forall|k: Seq<u8>| #[trigger] self.memtable@.dom().contains(k) implies k.len()
                    <= u32::MAX && self.memtable@[k].len() <= u32::MAX by {
                    assert(base.memtable@.dom().contains(k));
                }
            }
        }
        Ok(prev)
    }
}

/// The contents of what a get returns.
pub open spec fn got(r: Result<Option<Vec<u8>>, EngineError>) -> Result<Option<Seq<u8>>, EngineError> {
    match r {
        Ok(Some(v)) => Ok(Some(v@)),
        Ok(None) => Ok(None),
        Err(e) => Err(e),
    }
}

} // verus!
