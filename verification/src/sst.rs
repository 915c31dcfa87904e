//! Sorted-string tables: one immutable file for each flushed memtable.
//!
//! ```text
//! preamble   [entry_count: 8]
//! data       for each entry   [klen: 4][key][vlen: 4][value]
//! index      for each entry   [klen: 4][key][offset of the entry: 8]
//! footer     [offset of the index: 8][entries in the index: 8]
//! ```
//!
//! All integers are big-endian. A table file is held as a byte image.

use vstd::prelude::*;
use vstd::slice::slice_subrange;
use vstd::slice::slice_to_vec;
use crate::endian::be32;
use crate::endian::be64;
use crate::endian::from_be32;
use crate::endian::from_be64;
use crate::endian::lemma_be32;
use crate::endian::lemma_be64;
use crate::endian::push_be32;
use crate::endian::push_be64;
use crate::endian::read_be32;
use crate::endian::read_be64;
use crate::index::KeyIndex;
use crate::order::entries_view;
use crate::order::is_listing;
use crate::order::lemma_lex_irreflexive;
use crate::wal::extend_bytes;

verus! {

/// What a table refuses.
#[derive(Debug, Clone, Copy, PartialEq, Eq, Structural)]
pub enum SstError {
    /// The footer or the index cannot be read, or an offset of the index
    /// leads to no whole entry.
    Corrupt,
    /// A key or a value is longer than a 4-byte length can say.
    EntryTooLarge,
}

/// What a table holds under each of its keys: the value, or nothing where
/// the index leads to no whole entry.
pub type TableView = Map<Seq<u8>, Option<Seq<u8>>>;

/// The bytes of one entry of the data block.
pub open spec fn data_entry(key: Seq<u8>, value: Seq<u8>) -> Seq<u8> {
    be32(key.len() as u32) + key + be32(value.len() as u32) + value
}

/// The bytes of one entry of the index block.
pub open spec fn index_entry(key: Seq<u8>, offset: u64) -> Seq<u8> {
    be32(key.len() as u32) + key + be64(offset)
}

/// The data block of the entries: one entry after the other, in the order given.
pub open spec fn data_block(entries: Seq<(Seq<u8>, Seq<u8>)>) -> Seq<u8>
    decreases entries.len(),
{
    if entries.len() == 0 {
        Seq::empty()
    } else {
        data_block(entries.drop_last()) + data_entry(entries.last().0, entries.last().1)
    }
}

/// The key of each entry with the offset at which the entry stands, where
/// the data block starts at `base`.
pub open spec fn entry_offsets(base: int, entries: Seq<(Seq<u8>, Seq<u8>)>) -> Seq<(Seq<u8>, u64)>
    decreases entries.len(),
{
    if entries.len() == 0 {
        Seq::empty()
    } else {
        entry_offsets(base, entries.drop_last()).push(
            (entries.last().0, (base + data_block(entries.drop_last()).len()) as u64),
        )
    }
}

/// The index block of the offsets: one entry after the other.
pub open spec fn index_block(offsets: Seq<(Seq<u8>, u64)>) -> Seq<u8>
    decreases offsets.len(),
{
    if offsets.len() == 0 {
        Seq::empty()
    } else {
        index_block(offsets.drop_last()) + index_entry(offsets.last().0, offsets.last().1)
    }
}

/// What writing `entries` adds to a file that holds `start` bytes and whose
/// writer recorded the offsets `prior` before.
pub open spec fn table_bytes(
    start: int,
    prior: Seq<(Seq<u8>, u64)>,
    entries: Seq<(Seq<u8>, Seq<u8>)>,
) -> Seq<u8> {
    let offsets = prior + entry_offsets(start + 8, entries);
    be64(entries.len() as u64) + data_block(entries) + index_block(offsets) + be64(
        (start + 8 + data_block(entries).len()) as u64,
    ) + be64(offsets.len() as u64)
}

/// Whether the lengths of every key and value fit their 4-byte fields.
pub open spec fn entries_fit(entries: Seq<(Seq<u8>, Seq<u8>)>) -> bool {
    forall|i: int|
        0 <= i < entries.len() ==> (#[trigger] entries[i]).0.len() <= u32::MAX && entries[i].1.len()
            <= u32::MAX
}

/// The index that a reader takes from `count` index entries at `pos`: each
/// key with its offset, a later entry replacing an earlier one of the same
/// key; nothing where an entry does not end before the footer begins, which
/// is 16 bytes before the end of the image.
pub open spec fn read_index(image: Seq<u8>, pos: int, count: nat, acc: Map<Seq<u8>, u64>) -> Option<
    Map<Seq<u8>, u64>,
>
    decreases count,
{
    if count == 0 {
        Some(acc)
    } else if pos + 4 > image.len() - 16 {
        None
    } else {
        let klen = from_be32(image.subrange(pos, pos + 4)) as int;
        if pos + 12 + klen > image.len() - 16 {
            None
        } else {
            read_index(
                image,
                pos + 12 + klen,
                (count - 1) as nat,
                acc.insert(
                    image.subrange(pos + 4, pos + 4 + klen),
                    from_be64(image.subrange(pos + 4 + klen, pos + 12 + klen)),
                ),
            )
        }
    }
}

/// The index of a table image, as its footer locates it; nothing where the
/// image has no whole footer, where the footer puts the index beyond the
/// place at which the footer itself begins, or where the index does not hold
/// as many whole entries as the footer says.
pub open spec fn parse_index(image: Seq<u8>) -> Option<Map<Seq<u8>, u64>> {
    if image.len() < 16 {
        None
    } else if index_start(image) > image.len() - 16 {
        None
    } else {
        read_index(
            image,
            index_start(image),
            from_be64(image.subrange(image.len() - 8, image.len() as int)) as nat,
            Map::empty(),
        )
    }
}

/// Where the footer of a table image says that the index begins, which is
/// where the data ends.
pub open spec fn index_start(image: Seq<u8>) -> int {
    from_be64(image.subrange(image.len() - 16, image.len() - 8)) as int
}

/// The value of the entry that stands at `offset`, where a whole entry
/// stands there: behind the preamble and before the index. An offset that
/// leads anywhere else is out of range.
pub open spec fn value_at(image: Seq<u8>, offset: int) -> Option<Seq<u8>> {
    if image.len() < 16 || index_start(image) > image.len() - 16 {
        None
    } else if offset < 8 || offset + 4 > index_start(image) {
        None
    } else {
        let klen = from_be32(image.subrange(offset, offset + 4)) as int;
        if offset + 8 + klen > index_start(image) {
            None
        } else {
            let vlen = from_be32(image.subrange(offset + 4 + klen, offset + 8 + klen)) as int;
            if offset + 8 + klen + vlen > index_start(image) {
                None
            } else {
                Some(image.subrange(offset + 8 + klen, offset + 8 + klen + vlen))
            }
        }
    }
}

/// What a table with this index and image holds.
pub open spec fn table_of(index: Map<Seq<u8>, u64>, image: Seq<u8>) -> TableView {
    Map::new(|k: Seq<u8>| index.dom().contains(k), |k: Seq<u8>| value_at(image, index[k] as int))
}

/// What a table image holds, where its index can be read.
pub open spec fn table_view(image: Seq<u8>) -> Option<TableView> {
    match parse_index(image) {
        Some(index) => Some(table_of(index, image)),
        None => None,
    }
}

/// What a lookup in a table gives: nothing for a key that the table does
/// not have, the value for a key whose entry is whole, and an error for a
/// key whose offset leads to no whole entry of the data block.
pub open spec fn table_get(table: TableView, key: Seq<u8>) -> Result<Option<Seq<u8>>, SstError> {
    if !table.dom().contains(key) {
        Ok(None)
    } else {
        match table[key] {
            Some(v) => Ok(Some(v)),
            None => Err(SstError::Corrupt),
        }
    }
}

/// The contents of what a lookup returns.
pub open spec fn got_view(r: Result<Option<Vec<u8>>, SstError>) -> Result<Option<Seq<u8>>, SstError> {
    match r {
        Ok(Some(v)) => Ok(Some(v@)),
        Ok(None) => Ok(None),
        Err(e) => Err(e),
    }
}

/// The contents of a vector of keys with offsets.
pub open spec fn offsets_view(v: Seq<(Vec<u8>, u64)>) -> Seq<(Seq<u8>, u64)> {
    v.map_values(|e: (Vec<u8>, u64)| (e.0@, e.1))
}

/// The table that holds exactly the pairs of `m`, each entry whole.
pub open spec fn whole_table(m: Map<Seq<u8>, Seq<u8>>) -> TableView {
    Map::new(|k: Seq<u8>| m.dom().contains(k), |k: Seq<u8>| Some(m[k]))
}

/// `acc` after every offset of `offsets` was put into it, the first first.
pub open spec fn insert_all(acc: Map<Seq<u8>, u64>, offsets: Seq<(Seq<u8>, u64)>) -> Map<Seq<u8>, u64>
    decreases offsets.len(),
{
    if offsets.len() == 0 {
        acc
    } else {
        insert_all(acc.insert(offsets[0].0, offsets[0].1), offsets.skip(1))
    }
}

/// The data block of a concatenation is the concatenation of the data blocks.
pub proof fn lemma_data_block_concat(a: Seq<(Seq<u8>, Seq<u8>)>, b: Seq<(Seq<u8>, Seq<u8>)>)
    ensures
        data_block(a + b) == data_block(a) + data_block(b),
    decreases b.len(),
{
    if b.len() == 0 {
        assert(a + b =~= a);
        assert(data_block(a) + data_block(b) =~= data_block(a));
    } else {
        assert((a + b).drop_last() =~= a + b.drop_last());
        assert((a + b).last() == b.last());
        lemma_data_block_concat(a, b.drop_last());
        assert(data_block(a + b) =~= data_block(a) + data_block(b));
    }
}

/// The index block of a concatenation is the concatenation of the index blocks.
pub proof fn lemma_index_block_concat(a: Seq<(Seq<u8>, u64)>, b: Seq<(Seq<u8>, u64)>)
    ensures
        index_block(a + b) == index_block(a) + index_block(b),
    decreases b.len(),
{
    if b.len() == 0 {
        assert(a + b =~= a);
        assert(index_block(a) + index_block(b) =~= index_block(a));
    } else {
        assert((a + b).drop_last() =~= a + b.drop_last());
        assert((a + b).last() == b.last());
        lemma_index_block_concat(a, b.drop_last());
        assert(index_block(a + b) =~= index_block(a) + index_block(b));
    }
}

/// The offsets name each entry's key and the place where the entry starts.
pub proof fn lemma_entry_offsets(base: int, entries: Seq<(Seq<u8>, Seq<u8>)>, i: int)
    requires
        0 <= i < entries.len(),
    ensures
        entry_offsets(base, entries).len() == entries.len(),
        entry_offsets(base, entries)[i] == (
            entries[i].0,
            (base + data_block(entries.take(i)).len()) as u64,
        ),
    decreases entries.len(),
{
    lemma_entry_offsets_len(base, entries);
    lemma_entry_offsets_len(base, entries.drop_last());
    if i == entries.len() - 1 {
        assert(entries.take(i) =~= entries.drop_last());
    } else {
        lemma_entry_offsets(base, entries.drop_last(), i);
        assert(entries.drop_last().take(i) =~= entries.take(i));
    }
}

/// There is one offset for each entry.
pub proof fn lemma_entry_offsets_len(base: int, entries: Seq<(Seq<u8>, Seq<u8>)>)
    ensures
        entry_offsets(base, entries).len() == entries.len(),
    decreases entries.len(),
{
    if entries.len() > 0 {
        lemma_entry_offsets_len(base, entries.drop_last());
    }
}

/// A key that no offset names keeps what the map said of it.
proof fn lemma_insert_all_other(acc: Map<Seq<u8>, u64>, offsets: Seq<(Seq<u8>, u64)>, k: Seq<u8>)
    requires
        forall|i: int| 0 <= i < offsets.len() ==> (#[trigger] offsets[i]).0 != k,
    ensures
        insert_all(acc, offsets).dom().contains(k) == acc.dom().contains(k),
        acc.dom().contains(k) ==> insert_all(acc, offsets)[k] == acc[k],
    decreases offsets.len(),
{
    if offsets.len() > 0 {
        assert(offsets[0].0 != k);
        assert forall|i: int| 0 <= i < offsets.skip(1).len() implies (#[trigger] offsets.skip(1)[i]).0
            != k by {
            assert(offsets.skip(1)[i] == offsets[i + 1]);
        }
        lemma_insert_all_other(acc.insert(offsets[0].0, offsets[0].1), offsets.skip(1), k);
    }
}

/// Where no key occurs twice, each key ends up with its own offset.
proof fn lemma_insert_all_at(acc: Map<Seq<u8>, u64>, offsets: Seq<(Seq<u8>, u64)>, i: int)
    requires
        0 <= i < offsets.len(),
        forall|a: int, b: int|
            0 <= a < b < offsets.len() ==> (#[trigger] offsets[a]).0 != (#[trigger] offsets[b]).0,
    ensures
        insert_all(acc, offsets).dom().contains(offsets[i].0),
        insert_all(acc, offsets)[offsets[i].0] == offsets[i].1,
    decreases offsets.len(),
{
    let rest = offsets.skip(1);
    let next = acc.insert(offsets[0].0, offsets[0].1);
    if i == 0 {
        assert forall|j: int| 0 <= j < rest.len() implies (#[trigger] rest[j]).0 != offsets[0].0 by {
            assert(rest[j] == offsets[j + 1]);
        }
        lemma_insert_all_other(next, rest, offsets[0].0);
    } else {
        assert forall|a: int, b: int| 0 <= a < b < rest.len() implies (#[trigger] rest[a]).0 != (
        #[trigger] rest[b]).0 by {
            assert(rest[a] == offsets[a + 1]);
            assert(rest[b] == offsets[b + 1]);
        }
        assert(rest[i - 1] == offsets[i]);
        lemma_insert_all_at(next, rest, i - 1);
    }
}

/// Every key of the result was in the map or is named by an offset.
proof fn lemma_insert_all_dom(acc: Map<Seq<u8>, u64>, offsets: Seq<(Seq<u8>, u64)>, k: Seq<u8>)
    requires
        insert_all(acc, offsets).dom().contains(k),
    ensures
        acc.dom().contains(k) || exists|i: int| 0 <= i < offsets.len() && (#[trigger] offsets[i]).0 == k,
    decreases offsets.len(),
{
    if offsets.len() > 0 {
        let rest = offsets.skip(1);
        lemma_insert_all_dom(acc.insert(offsets[0].0, offsets[0].1), rest, k);
        if !acc.dom().contains(k) && offsets[0].0 != k {
            let i = choose|i: int| 0 <= i < rest.len() && (#[trigger] rest[i]).0 == k;
            assert(offsets[i + 1].0 == k);
        }
    }
}

/// Reading an index block that stands whole in the image gives back its offsets.
proof fn lemma_read_index(image: Seq<u8>, pos: int, offsets: Seq<(Seq<u8>, u64)>, acc: Map<Seq<u8>, u64>)
    requires
        0 <= pos,
        pos + index_block(offsets).len() <= image.len() - 16,
        image.subrange(pos, pos + index_block(offsets).len()) == index_block(offsets),
        forall|i: int| 0 <= i < offsets.len() ==> (#[trigger] offsets[i]).0.len() <= u32::MAX,
    ensures
        read_index(image, pos, offsets.len(), acc) == Some(insert_all(acc, offsets)),
    decreases offsets.len(),
{
    if offsets.len() > 0 {
        let first = offsets[0];
        let rest = offsets.skip(1);
        let klen = first.0.len() as int;
        let block = index_block(offsets);
        assert(offsets =~= seq![first] + rest);
        lemma_index_block_concat(seq![first], rest);
        assert(seq![first].drop_last() =~= Seq::<(Seq<u8>, u64)>::empty());
        assert(index_block(seq![first]) =~= index_entry(first.0, first.1)) by {
            reveal_with_fuel(index_block, 2);
        }
        lemma_be32(klen as u32);
        lemma_be64(first.1);
        let e = index_entry(first.0, first.1);
        assert(e.len() == 12 + klen);
        assert(block =~= e + index_block(rest));
        assert(image.subrange(pos, pos + 4) =~= be32(klen as u32)) by {
            assert(image.subrange(pos, pos + 4) =~= block.subrange(0, 4));
            assert(block.subrange(0, 4) =~= e.subrange(0, 4));
        }
        assert(image.subrange(pos + 4, pos + 4 + klen) =~= first.0) by {
            assert(image.subrange(pos + 4, pos + 4 + klen) =~= block.subrange(4, 4 + klen));
            assert(block.subrange(4, 4 + klen) =~= e.subrange(4, 4 + klen));
        }
        assert(image.subrange(pos + 4 + klen, pos + 12 + klen) =~= be64(first.1)) by {
            assert(image.subrange(pos + 4 + klen, pos + 12 + klen) =~= block.subrange(
                4 + klen,
                12 + klen,
            ));
            assert(block.subrange(4 + klen, 12 + klen) =~= e.subrange(4 + klen, 12 + klen));
        }
        assert(image.subrange(pos + 12 + klen, pos + 12 + klen + index_block(rest).len())
            =~= index_block(rest)) by {
            assert(image.subrange(pos + 12 + klen, pos + 12 + klen + index_block(rest).len())
                =~= block.subrange(12 + klen, block.len() as int));
        }
        assert forall|i: int| 0 <= i < rest.len() implies (#[trigger] rest[i]).0.len() <= u32::MAX by {
            assert(rest[i] == offsets[i + 1]);
        }
        lemma_read_index(image, pos + 12 + klen, rest, acc.insert(first.0, first.1));
    }
}

/// The entry that the offsets name stands whole in the data block.
proof fn lemma_value_at_entry(image: Seq<u8>, start: int, entries: Seq<(Seq<u8>, Seq<u8>)>, i: int)
    requires
        8 <= start,
        image.len() >= 16,
        start + data_block(entries).len() <= index_start(image) <= image.len() - 16,
        image.subrange(start, start + data_block(entries).len()) == data_block(entries),
        entries_fit(entries),
        0 <= i < entries.len(),
    ensures
        value_at(image, start + data_block(entries.take(i)).len()) == Some(entries[i].1),
{
    let before = entries.take(i);
    let after = entries.skip(i + 1);
    let key = entries[i].0;
    let value = entries[i].1;
    let klen = key.len() as int;
    let vlen = value.len() as int;
    let block = data_block(entries);
    let e = data_entry(key, value);
    assert(entries =~= (before + seq![entries[i]]) + after);
    lemma_data_block_concat(before + seq![entries[i]], after);
    lemma_data_block_concat(before, seq![entries[i]]);
    assert(seq![entries[i]].drop_last() =~= Seq::<(Seq<u8>, Seq<u8>)>::empty());
    assert(data_block(seq![entries[i]]) =~= e) by {
        reveal_with_fuel(data_block, 2);
    }
    lemma_be32(klen as u32);
    lemma_be32(vlen as u32);
    assert(e.len() == 8 + klen + vlen);
    let at = data_block(before).len() as int;
    assert(block =~= data_block(before) + e + data_block(after));
    let off = start + at;
    assert(image.subrange(off, off + 4) =~= be32(klen as u32)) by {
        assert(image.subrange(off, off + 4) =~= block.subrange(at, at + 4));
        assert(block.subrange(at, at + 4) =~= e.subrange(0, 4));
    }
    assert(image.subrange(off + 4 + klen, off + 8 + klen) =~= be32(vlen as u32)) by {
        assert(image.subrange(off + 4 + klen, off + 8 + klen) =~= block.subrange(
            at + 4 + klen,
            at + 8 + klen,
        ));
        assert(block.subrange(at + 4 + klen, at + 8 + klen) =~= e.subrange(4 + klen, 8 + klen));
    }
    assert(image.subrange(off + 8 + klen, off + 8 + klen + vlen) =~= value) by {
        assert(image.subrange(off + 8 + klen, off + 8 + klen + vlen) =~= block.subrange(
            at + 8 + klen,
            at + 8 + klen + vlen,
        ));
        assert(block.subrange(at + 8 + klen, at + 8 + klen + vlen) =~= e.subrange(
            8 + klen,
            8 + klen + vlen,
        ));
    }
}

/// The entries stand in the data block in the order in which they were
/// given: each stands whole where the entries before it end, directly behind
/// its predecessor.
pub proof fn law_entries_in_order(entries: Seq<(Seq<u8>, Seq<u8>)>, i: int)
    requires
        0 <= i < entries.len(),
    ensures
        8 + data_block(entries.take(i + 1)).len() <= table_bytes(0, Seq::empty(), entries).len(),
        data_block(entries.take(i + 1)).len() == data_block(entries.take(i)).len() + data_entry(
            entries[i].0,
            entries[i].1,
        ).len(),
        table_bytes(0, Seq::empty(), entries).subrange(
            (8 + data_block(entries.take(i)).len()) as int,
            (8 + data_block(entries.take(i + 1)).len()) as int,
        ) == data_entry(entries[i].0, entries[i].1),
{
    let before = entries.take(i);
    let upto = entries.take(i + 1);
    let after = entries.skip(i + 1);
    let e = data_entry(entries[i].0, entries[i].1);
    let image = table_bytes(0, Seq::empty(), entries);
    assert(entries =~= upto + after);
    assert(upto =~= before + seq![entries[i]]);
    lemma_data_block_concat(upto, after);
    lemma_data_block_concat(before, seq![entries[i]]);
    assert(seq![entries[i]].drop_last() =~= Seq::<(Seq<u8>, Seq<u8>)>::empty());
    assert(data_block(seq![entries[i]]) =~= e) by {
        reveal_with_fuel(data_block, 2);
    }
    lemma_be64(entries.len() as u64);
    let at = 8 + data_block(before).len() as int;
    assert(image.subrange(at, at + e.len()) =~= e);
}

/// A table that was written from the listing of a map reads back as that
/// map: the index holds exactly the map's keys, and each offset leads to the
/// entry of its key.
pub proof fn lemma_table_round_trip(entries: Seq<(Seq<u8>, Seq<u8>)>, m: Map<Seq<u8>, Seq<u8>>)
    requires
        is_listing(entries, m),
        entries_fit(entries),
        table_bytes(0, Seq::empty(), entries).len() <= u64::MAX,
    ensures
        table_view(table_bytes(0, Seq::empty(), entries)) == Some(whole_table(m)),
{
    let n = entries.len();
    let image = table_bytes(0, Seq::empty(), entries);
    let data = data_block(entries);
    let offsets = entry_offsets(8, entries);
    let block = index_block(offsets);
    let ix = 8 + data.len() as int;
    let dlen = data.len() as int;
    let blen = index_block(entry_offsets(8, entries)).len() as int;
    lemma_entry_offsets_len(8, entries);
    lemma_data_block_len(entries);
    assert(Seq::<(Seq<u8>, u64)>::empty() + offsets =~= offsets);
    lemma_be64(n as u64);
    lemma_be64(ix as u64);
    assert(image =~= be64(n as u64) + data + block + be64(ix as u64) + be64(n as u64));
    let total = image.len() as int;
    assert(total == 8 + data.len() + block.len() + 16);
    assert(image.subrange(total - 16, total - 8) =~= be64(ix as u64));
    assert(image.subrange(total - 8, total) =~= be64(n as u64));
    assert(image.subrange(ix, ix + blen) =~= block);
    assert(image.subrange(8, 8 + dlen) =~= data);
    assert forall|i: int| 0 <= i < offsets.len() implies (#[trigger] offsets[i]).0.len() <= u32::MAX by {
        lemma_entry_offsets(8, entries, i);
    }
    lemma_read_index(image, ix, offsets, Map::empty());
    let index = insert_all(Map::empty(), offsets);
    assert(parse_index(image) == Some(index));
    assert forall|a: int, b: int| 0 <= a < b < offsets.len() implies (#[trigger] offsets[a]).0 != (
    #[trigger] offsets[b]).0 by {
        lemma_entry_offsets(8, entries, a);
        lemma_entry_offsets(8, entries, b);
        lemma_lex_irreflexive(entries[a].0);
    }
    assert forall|k: Seq<u8>| #[trigger] index.dom().contains(k) == m.dom().contains(k) by {
        if index.dom().contains(k) {
            lemma_insert_all_dom(Map::empty(), offsets, k);
            let i = choose|i: int| 0 <= i < offsets.len() && (#[trigger] offsets[i]).0 == k;
            lemma_entry_offsets(8, entries, i);
            assert(m.dom().contains(entries[i].0));
        }
        if m.dom().contains(k) {
            let i = choose|i: int| 0 <= i < entries.len() && (#[trigger] entries[i]).0 == k;
            lemma_entry_offsets(8, entries, i);
            lemma_insert_all_at(Map::empty(), offsets, i);
        }
    }
    assert forall|k: Seq<u8>| m.dom().contains(k) implies value_at(image, index[k] as int) == Some(
        m[k],
    ) by {
        let i = choose|i: int| 0 <= i < entries.len() && (#[trigger] entries[i]).0 == k;
        lemma_entry_offsets(8, entries, i);
        lemma_insert_all_at(Map::empty(), offsets, i);
        lemma_data_block_prefix_len(entries, i);
        lemma_value_at_entry(image, 8, entries, i);
        assert(m[entries[i].0] == entries[i].1);
    }
    assert(table_of(index, image) =~= whole_table(m));
}

/// Each entry takes eight bytes of the data block at the least.
proof fn lemma_data_block_len(entries: Seq<(Seq<u8>, Seq<u8>)>)
    ensures
        data_block(entries).len() >= 8 * entries.len(),
    decreases entries.len(),
{
    if entries.len() > 0 {
        lemma_data_block_len(entries.drop_last());
        lemma_be32(entries.last().0.len() as u32);
        lemma_be32(entries.last().1.len() as u32);
    }
}

/// The data block of the first entries is no longer than the whole block.
proof fn lemma_data_block_prefix_len(entries: Seq<(Seq<u8>, Seq<u8>)>, i: int)
    requires
        0 <= i <= entries.len(),
    ensures
        data_block(entries.take(i)).len() <= data_block(entries).len(),
{
    assert(entries =~= entries.take(i) + entries.skip(i));
    lemma_data_block_concat(entries.take(i), entries.skip(i));
}

/// A table that is being written.
pub struct SSTWriter {
    image: Vec<u8>,
    offsets: Vec<(Vec<u8>, u64)>,
}

impl SSTWriter {
    /// What was written so far.
    pub closed spec fn image(&self) -> Seq<u8> {
        self.image@
    }

    /// The offsets that were recorded so far.
    pub closed spec fn offsets(&self) -> Seq<(Seq<u8>, u64)> {
        offsets_view(self.offsets@)
    }

    /// The keys of the recorded offsets fit their length fields.
    pub closed spec fn wf(&self) -> bool {
        forall|i: int|
            0 <= i < self.offsets@.len() ==> (#[trigger] self.offsets@[i]).0@.len() <= u32::MAX
    }

    /// A writer on an empty file.
    pub fn open() -> (w: SSTWriter)
        ensures
            w.wf(),
            w.image() == Seq::<u8>::empty(),
            w.offsets() == Seq::<(Seq<u8>, u64)>::empty(),
    {
        let w = SSTWriter { image: Vec::new(), offsets: Vec::new() };
        assert(w.offsets() =~= Seq::<(Seq<u8>, u64)>::empty());
        w
    }

    /// The bytes of the file.
    pub fn into_bytes(self) -> (b: Vec<u8>)
        ensures
            b@ == self.image(),
    {
        self.image
    }

    /// Writes the preamble, the entries in the order given, the index of
    /// every entry recorded so far and the footer. Entries that do not fit
    /// the format are refused before anything is written.
    pub fn write_all(&mut self, entries: Vec<(Vec<u8>, Vec<u8>)>) -> (r: Result<(), SstError>)
        requires
            old(self).wf(),
        ensures
            final(self).wf(),
            entries_fit(entries_view(entries@)) ==> r == Ok::<(), SstError>(()) && final(self).image() == old(self).image() + table_bytes(
                old(self).image().len() as int,
                old(self).offsets(),
                entries_view(entries@),
            ) && final(self).offsets() == old(self).offsets() + entry_offsets(
                (old(self).image().len() + 8) as int,
                entries_view(entries@),
            ),
            !entries_fit(entries_view(entries@)) ==> r == Err::<(), SstError>(
                SstError::EntryTooLarge,
            ) && final(self).image() == old(self).image() && final(self).offsets() == old(self).offsets(),
    {
        let n: usize = entries.len();
        let ghost ev = entries_view(entries@);
        let mut i: usize = 0;
        while i < n
            invariant
                i <= n,
                n == entries@.len(),
                ev == entries_view(entries@),
                self.wf(),
                self.image@ == old(self).image@,
                self.offsets@ == old(self).offsets@,
                forall|j: int|
                    0 <= j < i ==> (#[trigger] ev[j]).0.len() <= u32::MAX && ev[j].1.len() <= u32::MAX,
            decreases n - i,
        {
            if entries[i].0.len() > u32::MAX as usize || entries[i].1.len() > u32::MAX as usize {
                assert(ev[i as int].0.len() > u32::MAX || ev[i as int].1.len() > u32::MAX);
                return Err(SstError::EntryTooLarge);
            }
            i = i + 1;
        }
        let ghost start = self.image@.len() as int;
        let ghost prior = offsets_view(self.offsets@);
        push_be64(&mut self.image, n as u64);
        proof {
            lemma_be64(n as u64);
        }
        i = 0;
        assert(ev.take(0) =~= Seq::empty());
        assert(offsets_view(self.offsets@) =~= prior + entry_offsets(start + 8, ev.take(0)));
        while i < n
            invariant
                i <= n,
                n == entries@.len(),
                ev == entries_view(entries@),
                entries_fit(ev),
                self.wf(),
                self.image@ == old(self).image@ + be64(n as u64) + data_block(ev.take(i as int)),
                self.image@.len() == start + 8 + data_block(ev.take(i as int)).len(),
                offsets_view(self.offsets@) == prior + entry_offsets(start + 8, ev.take(i as int)),
            decreases n - i,
        {
            assert(ev[i as int] == (entries@[i as int].0@, entries@[i as int].1@));
            let ghost recorded = offsets_view(self.offsets@);
            let offset: u64 = self.image.len() as u64;
            let key: Vec<u8> = entries[i].0.clone();
            self.offsets.push((key, offset));
            assert(offsets_view(self.offsets@) =~= recorded.push((ev[i as int].0, offset)));
            push_be32(&mut self.image, entries[i].0.len() as u32);
            extend_bytes(&mut self.image, entries[i].0.as_slice());
            push_be32(&mut self.image, entries[i].1.len() as u32);
            extend_bytes(&mut self.image, entries[i].1.as_slice());
            proof {
                let next = ev.take(i + 1);
                assert(next.drop_last() =~= ev.take(i as int));
                assert(next.last() == ev[i as int]);
                assert(self.image@ =~= old(self).image@ + be64(n as u64) + data_block(next));
                assert(entry_offsets(start + 8, next) == entry_offsets(start + 8, ev.take(i as int)).push(
                    (ev[i as int].0, offset),
                ));
                assert(offsets_view(self.offsets@) =~= prior + entry_offsets(start + 8, next));
            }
            i = i + 1;
        }
        assert(ev.take(n as int) =~= ev);
        let index_offset: u64 = self.image.len() as u64;
        let index_len: u64 = self.offsets.len() as u64;
        let ghost ov = offsets_view(self.offsets@);
        let ghost with_data = self.image@;
        let m: usize = self.offsets.len();
        let mut j: usize = 0;
        assert(ov.take(0) =~= Seq::empty());
        while j < m
            invariant
                j <= m,
                m == self.offsets@.len(),
                ov == offsets_view(self.offsets@),
                self.wf(),
                self.image@ == with_data + index_block(ov.take(j as int)),
            decreases m - j,
        {
            push_be32(&mut self.image, self.offsets[j].0.len() as u32);
            extend_bytes(&mut self.image, self.offsets[j].0.as_slice());
            push_be64(&mut self.image, self.offsets[j].1);
            proof {
                let next = ov.take(j + 1);
                assert(next.drop_last() =~= ov.take(j as int));
                assert(next.last() == ov[j as int]);
                assert(self.image@ =~= with_data + index_block(next));
            }
            j = j + 1;
        }
        assert(ov.take(m as int) =~= ov);
        push_be64(&mut self.image, index_offset);
        push_be64(&mut self.image, index_len);
        assert(self.image@ =~= old(self).image@ + table_bytes(start, prior, ev));
        Ok(())
    }
}

/// A table that is open for lookups.
pub struct SSTReader {
    image: Vec<u8>,
    index: KeyIndex,
}

impl View for SSTReader {
    type V = TableView;

    closed spec fn view(&self) -> TableView {
        table_of(self.index@, self.image@)
    }
}

impl SSTReader {
    /// The image of the table file.
    pub closed spec fn image(&self) -> Seq<u8> {
        self.image@
    }

    /// The index is in order, and it is the index of the image.
    pub closed spec fn wf(&self) -> bool {
        &&& self.index.wf()
        &&& parse_index(self.image@) == Some(self.index@)
    }

    /// A reader holds what its image says.
    pub proof fn lemma_view_of_image(&self)
        requires
            self.wf(),
        ensures
            table_view(self.image()) == Some(self@),
    {
    }

    /// The image of the table file.
    pub fn bytes(&self) -> (b: &Vec<u8>)
        ensures
            b@ == self.image(),
    {
        &self.image
    }

    /// Opens a table image: reads the footer and, from where it points, the
    /// index. An image is corrupt where it has no whole footer, where the
    /// footer puts the index beyond the place at which the footer begins, or
    /// where the entries of the index do not end before the footer.
    pub fn open(image: Vec<u8>) -> (r: Result<SSTReader, SstError>)
        ensures
            match r {
                Ok(reader) => reader.wf() && reader.image() == image@ && table_view(image@) == Some(
                    reader@,
                ),
                Err(e) => e == SstError::Corrupt && table_view(image@) is None,
            },
    {
        let total: usize = image.len();
        if total < 16 {
            return Err(SstError::Corrupt);
        }
        let index_offset: u64 = read_be64(image.as_slice(), total - 16);
        let count: u64 = read_be64(image.as_slice(), total - 8);
        let limit: usize = total - 16;
        if index_offset > limit as u64 {
            return Err(SstError::Corrupt);
        }
        let mut index = KeyIndex::new();
        let mut pos: u64 = index_offset;
        let mut left: u64 = count;
        while left > 0
            invariant
                index.wf(),
                total == image@.len(),
                total >= 16,
                limit == total - 16,
                read_index(image@, pos as int, left as nat, index@) == parse_index(image@),
            decreases left,
        {
            if pos > limit as u64 || limit as u64 - pos < 4 {
                return Err(SstError::Corrupt);
            }
            let p: usize = pos as usize;
            let klen: usize = read_be32(image.as_slice(), p) as usize;
            let room: usize = limit - p - 4;
            if room < 8 || klen > room - 8 {
                return Err(SstError::Corrupt);
            }
            let key: Vec<u8> = slice_to_vec(slice_subrange(image.as_slice(), p + 4, p + 4 + klen));
            let offset: u64 = read_be64(image.as_slice(), p + 4 + klen);
            index.insert(key, offset);
            pos = (p + 12 + klen) as u64;
            left = left - 1;
        }
        Ok(SSTReader { image, index })
    }

    /// The value under `key`: the index says where the entry stands, and the
    /// value is read from there. An offset that leads to no whole entry
    /// between the preamble and the index is corrupt.
    pub fn get(&self, key: &[u8]) -> (r: Result<Option<Vec<u8>>, SstError>)
        requires
            self.wf(),
        ensures
            got_view(r) == table_get(self@, key@),
    {
        match self.index.get(key) {
            None => Ok(None),
            Some(offset) => {
                let total: usize = self.image.len();
                let limit: u64 = read_be64(self.image.as_slice(), total - 16);
                if offset < 8 || offset > limit || limit - offset < 4 {
                    return Err(SstError::Corrupt);
                }
                let p: usize = offset as usize;
                let klen: usize = read_be32(self.image.as_slice(), p) as usize;
                let room: usize = limit as usize - p - 4;
                if room < 4 || klen > room - 4 {
                    return Err(SstError::Corrupt);
                }
                let vlen: usize = read_be32(self.image.as_slice(), p + 4 + klen) as usize;
                if vlen > room - 4 - klen {
                    return Err(SstError::Corrupt);
                }
                let start: usize = p + 8 + klen;
                Ok(Some(slice_to_vec(slice_subrange(self.image.as_slice(), start, start + vlen))))
            },
        }
    }
}

} // verus!
