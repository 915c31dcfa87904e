//! What holds of the engine whatever it is asked to do, proved from the
//! contracts of its operations.

use vstd::prelude::*;
use crate::engine::apply_record;
use crate::engine::apply_records;
use crate::engine::arranged_records;
use crate::engine::arranged_tables;
use crate::engine::dir_files_of;
use crate::engine::keys_valid;
use crate::engine::probe;
use crate::engine::table_files;
use crate::engine::Engine;
use crate::engine::EngineError;
use crate::engine::EngineView;
use crate::engine::log_image_of;
use crate::names::lemma_table_name_id;
use crate::names::log_name;
use crate::names::table_id;
use crate::names::table_name;
use crate::sort::lemma_sorted_order_identity;
use crate::sst::table_view;
use crate::radix::lookup;
use crate::sst::whole_table;
use crate::sst::TableView;
use crate::wal::lemma_append_in_order;
use crate::wal::log_in_order;
use crate::wal::log_records;
use crate::wal::lsns;
use crate::wal::record_of;
use crate::wal::stored_log_end;
use crate::wal::stored_lsn;
use crate::wal::strictly_ascending;
use crate::wal::WalRecordView;

verus! {

/// One thing that an engine is asked to do.
pub enum Step {
    Put { key: Seq<u8>, value: Seq<u8> },
    Delete { key: Seq<u8> },
    Flush,
}

/// The engine after one step.
pub open spec fn step(e: EngineView, s: Step) -> EngineView {
    match s {
        Step::Put { key, value } => e.put(key, value),
        Step::Delete { key } => e.delete(key),
        Step::Flush => e.flushed(),
    }
}

/// The engine after the steps, the first first.
pub open spec fn run(e: EngineView, steps: Seq<Step>) -> EngineView
    decreases steps.len(),
{
    if steps.len() == 0 {
        e
    } else {
        step(run(e, steps.drop_last()), steps.last())
    }
}

/// Whether the step puts or deletes the key `k`.
pub open spec fn touches(s: Step, k: Seq<u8>) -> bool {
    match s {
        Step::Put { key, value } => key == k,
        Step::Delete { key } => key == k,
        Step::Flush => false,
    }
}

/// Whether every step is a put.
pub open spec fn all_puts(steps: Seq<Step>) -> bool {
    forall|i: int| 0 <= i < steps.len() ==> #[trigger] steps[i] is Put
}

/// A flush changes the answer to no get: what the memtable held is found in
/// the new table, and what it did not hold is looked for in the older
/// tables as before.
pub proof fn law_flush_is_transparent(e: EngineView, k: Seq<u8>)
    ensures
        e.flushed().get(k) == e.get(k),
{
    let tables = e.tables.push(whole_table(e.mem));
    assert(tables.drop_last() =~= e.tables);
    assert(tables.last() == whole_table(e.mem));
}

/// After a put of `v` under `k`, a get of `k` returns `v`, and a get of
/// any other key returns what it returned before, whether or not the put
/// flushed.
pub proof fn law_put_then_get(e: EngineView, k: Seq<u8>, v: Seq<u8>, other: Seq<u8>)
    ensures
        e.put(k, v).get(other) == (if other.len() == 0 {
            Err::<Option<Seq<u8>>, EngineError>(EngineError::InvalidKey)
        } else if other == k {
            Ok(Some(v))
        } else {
            e.get(other)
        }),
{
    law_flush_is_transparent(e, other);
}

/// After a delete of `k`, a get of any other key returns what it returned
/// before.
pub proof fn law_delete_keeps_others(e: EngineView, k: Seq<u8>, other: Seq<u8>)
    requires
        other != k,
    ensures
        e.delete(k).get(other) == e.get(other),
{
}

/// After a put of `v` under `k`, a get of `k` returns `v` for as long as no
/// later step puts or deletes `k`; flushes in between change nothing.
pub proof fn law_round_trip(e: EngineView, k: Seq<u8>, v: Seq<u8>, steps: Seq<Step>)
    requires
        k.len() > 0,
        forall|i: int| 0 <= i < steps.len() ==> !touches(#[trigger] steps[i], k),
    ensures
        run(e.put(k, v), steps).get(k) == Ok::<Option<Seq<u8>>, EngineError>(Some(v)),
    decreases steps.len(),
{
    if steps.len() == 0 {
        law_put_then_get(e, k, v, k);
    } else {
        let before = run(e.put(k, v), steps.drop_last());
        assert forall|i: int| 0 <= i < steps.drop_last().len() implies !touches(
            #[trigger] steps.drop_last()[i],
            k,
        ) by {
            assert(steps.drop_last()[i] == steps[i]);
        }
        law_round_trip(e, k, v, steps.drop_last());
        assert(!touches(steps.last(), k));
        match steps.last() {
            Step::Put { key, value } => {
                law_put_then_get(before, key, value, k);
            },
            Step::Delete { key } => {
                law_delete_keeps_others(before, key, k);
            },
            Step::Flush => {
                law_flush_is_transparent(before, k);
            },
        }
    }
}

/// After a put of `v1` and then of `v2` under `k`, a get of `k` returns
/// `v2`; and the second put returns `v1` unless it flushed the memtable
/// first, which leaves nothing there to return.
pub proof fn law_overwrite(e: EngineView, k: Seq<u8>, v1: Seq<u8>, v2: Seq<u8>)
    requires
        k.len() > 0,
    ensures
        e.put(k, v1).put(k, v2).get(k) == Ok::<Option<Seq<u8>>, EngineError>(Some(v2)),
        !e.put(k, v1).flush_due(k, v2) ==> e.put(k, v1).put_returns(k, v2) == Some(v1),
        e.put(k, v1).flush_due(k, v2) ==> e.put(k, v1).put_returns(k, v2) == None::<Seq<u8>>,
{
    law_put_then_get(e.put(k, v1), k, v2, k);
}

/// After a put and then a delete of `k`, a get of `k` returns nothing,
/// where no table holds `k`: a delete takes the key out of the memtable
/// only.
pub proof fn law_delete_in_memtable(e: EngineView, k: Seq<u8>, v: Seq<u8>)
    requires
        k.len() > 0,
        probe(e.put(k, v).tables, k) == Ok::<Option<Seq<u8>>, EngineError>(None),
    ensures
        e.put(k, v).delete(k).get(k) == Ok::<Option<Seq<u8>>, EngineError>(None),
{
}

/// After a put and then a delete of `k`, a get of `k` returns what the
/// tables hold under `k`.
pub proof fn law_delete_uncovers_tables(e: EngineView, k: Seq<u8>, v: Seq<u8>)
    requires
        k.len() > 0,
    ensures
        e.put(k, v).delete(k).get(k) == probe(e.put(k, v).tables, k),
{
}

/// Two engines that answer every get alike still do so after the same puts.
proof fn lemma_same_answers(a: EngineView, b: EngineView, steps: Seq<Step>, k: Seq<u8>)
    requires
        forall|x: Seq<u8>| a.get(x) == b.get(x),
        all_puts(steps),
    ensures
        run(a, steps).get(k) == run(b, steps).get(k),
    decreases steps.len(),
{
    if steps.len() > 0 {
        assert(all_puts(steps.drop_last())) by {
            assert forall|i: int| 0 <= i < steps.drop_last().len() implies #[trigger] steps.drop_last()[i] is Put by {
                assert(steps.drop_last()[i] == steps[i]);
            }
        }
        assert(steps.last() == steps[steps.len() - 1]);
        match steps.last() {
            Step::Put { key, value } => {
                law_put_then_get(run(a, steps.drop_last()), key, value, k);
                law_put_then_get(run(b, steps.drop_last()), key, value, k);
                lemma_same_answers(a, b, steps.drop_last(), k);
            },
            _ => {},
        }
    }
}

/// A flush in the middle of a sequence of puts does not change what any get
/// returns at the end.
pub proof fn law_flush_mid_sequence(e: EngineView, first: Seq<Step>, then: Seq<Step>, k: Seq<u8>)
    requires
        all_puts(first),
        all_puts(then),
    ensures
        run(run(e, first).flushed(), then).get(k) == run(run(e, first), then).get(k),
{
    let mid = run(e, first);
    assert forall|x: Seq<u8>| mid.flushed().get(x) == mid.get(x) by {
        law_flush_is_transparent(mid, x);
    }
    lemma_same_answers(mid.flushed(), mid, then, k);
}

/// Among the tables, the newest that has the key gives the answer: where
/// table `i` holds `v` under `k` and no newer table has `k`, the lookup
/// returns `v`, whatever the older tables hold.
pub proof fn law_newest_table_wins(tables: Seq<TableView>, k: Seq<u8>, i: int, v: Seq<u8>)
    requires
        0 <= i < tables.len(),
        tables[i].dom().contains(k),
        tables[i][k] == Some(v),
        forall|j: int| i < j < tables.len() ==> !(#[trigger] tables[j]).dom().contains(k),
    ensures
        probe(tables, k) == Ok::<Option<Seq<u8>>, EngineError>(Some(v)),
    decreases tables.len(),
{
    if i < tables.len() - 1 {
        assert(!tables[tables.len() - 1].dom().contains(k));
        assert forall|j: int| i < j < tables.drop_last().len() implies !(
        #[trigger] tables.drop_last()[j]).dom().contains(k) by {
            assert(tables.drop_last()[j] == tables[j]);
        }
        law_newest_table_wins(tables.drop_last(), k, i, v);
    }
}

/// With an empty memtable, as after a restart on an empty log, a get is
/// answered by the tables alone.
pub proof fn law_empty_memtable_asks_tables(e: EngineView, k: Seq<u8>)
    requires
        k.len() > 0,
        e.mem == Map::<Seq<u8>, Seq<u8>>::empty(),
    ensures
        e.get(k) == probe(e.tables, k),
{
}

/// Whether the engine's log is in order and the engine's next sequence
/// number lies above everything in it.
pub open spec fn engine_log_in_order(e: Engine) -> bool {
    &&& e.log().tight()
    &&& e.next_lsn() >= 1
    &&& e.log().last_lsn() < e.next_lsn() || e.next_lsn() == u64::MAX
}

/// The records that a put or a delete appends to: none after a flush.
pub open spec fn records_before(pre: Engine, flushed: bool) -> Seq<WalRecordView> {
    if flushed {
        Seq::empty()
    } else {
        log_records(pre.log().image())
    }
}

/// A put appends one record, under a sequence number greater than that of
/// every record in the log, and leaves the log in order.
pub proof fn law_put_appends_in_order(
    pre: Engine,
    post: Engine,
    key: Seq<u8>,
    val: Seq<u8>,
    r: Result<Option<Vec<u8>>, EngineError>,
)
    requires
        engine_log_in_order(pre),
        Engine::put_effect(pre, post, key, val, r),
        r is Ok,
    ensures
        engine_log_in_order(post),
        log_records(post.log().image()) == records_before(pre, pre@.flush_due(key, val)).push(
            record_of(pre.next_lsn(), 1, key, val),
        ),
        strictly_ascending(lsns(log_records(post.log().image()))),
        post.next_lsn() == pre.next_lsn() + 1,
{
    let due = pre@.flush_due(key, val);
    let image = if due {
        Seq::<u8>::empty()
    } else {
        pre.log().image()
    };
    lemma_empty_log_in_order();
    lemma_append_in_order(image, pre.next_lsn(), 1, key, val);
}

/// A delete appends one record, under a sequence number greater than that
/// of every record in the log, and leaves the log in order.
pub proof fn law_delete_appends_in_order(
    pre: Engine,
    post: Engine,
    key: Seq<u8>,
    r: Result<Option<Vec<u8>>, EngineError>,
)
    requires
        engine_log_in_order(pre),
        Engine::delete_effect(pre, post, key, r),
        r is Ok,
    ensures
        engine_log_in_order(post),
        log_records(post.log().image()) == log_records(pre.log().image()).push(
            record_of(pre.next_lsn(), 2, key, Seq::empty()),
        ),
        strictly_ascending(lsns(log_records(post.log().image()))),
        post.next_lsn() == pre.next_lsn() + 1,
{
    lemma_append_in_order(pre.log().image(), pre.next_lsn(), 2, key, Seq::empty());
}

/// The empty log is in order.
pub proof fn lemma_empty_log_in_order()
    ensures
        log_in_order(Seq::<u8>::empty()),
        stored_log_end(Seq::<u8>::empty()) == 16,
        stored_lsn(Seq::<u8>::empty()) == 0,
        log_records(Seq::<u8>::empty()) == Seq::<WalRecordView>::empty(),
{
    assert(log_records(Seq::<u8>::empty()) =~= Seq::<WalRecordView>::empty());
}

/// An engine that is opened on a log in order goes on above the log's last
/// sequence number: the log stays in order across a restart.
pub proof fn law_open_continues_log(engine: Engine, max_bytes: usize, files: Seq<(Seq<u8>, Seq<u8>)>)
    requires
        engine.opened_from(max_bytes, files),
        log_in_order(log_image_of(files)),
    ensures
        engine_log_in_order(engine),
{
}

/// The files that an engine leaves behind hold its log as it stands, so an
/// engine that is opened on them reads the same records.
pub proof fn law_files_hold_log(engine: Engine)
    ensures
        log_image_of(engine.dir()) == engine.log().image(),
{
    assert(engine.dir()[0].0 == log_name());
}

/// Whether an engine is what its files say: the log is in order and holds
/// no record with the empty key, the memtable is what the records of the log
/// make of an empty one, and the ids of the tables ascend with their age.
pub open spec fn sound(e: Engine) -> bool {
    &&& e.wf()
    &&& engine_log_in_order(e)
    &&& keys_valid(log_records(e.log().image()))
    &&& e@.mem == apply_records(Map::empty(), log_records(e.log().image()))
    &&& strictly_ascending(e.table_ids())
}

/// Records whose sequence numbers ascend are replayed in the order in which
/// they stand.
pub proof fn lemma_arranged_in_order(records: Seq<WalRecordView>)
    requires
        strictly_ascending(lsns(records)),
    ensures
        arranged_records(records) == records,
{
    lemma_sorted_order_identity(lsns(records));
    assert(arranged_records(records) =~= records);
}

/// Among the files of an engine's directory, the tables are the engine's
/// tables, in the engine's order.
pub proof fn lemma_table_files_of_dir(image: Seq<u8>, ids: Seq<u64>, images: Seq<Seq<u8>>)
    requires
        ids.len() == images.len(),
    ensures
        table_files(dir_files_of(image, ids, images)) == Seq::new(
            ids.len(),
            |i: int| (ids[i], images[i]),
        ),
    decreases ids.len(),
{
    let dir = dir_files_of(image, ids, images);
    if ids.len() == 0 {
        assert(dir.drop_last() =~= Seq::<(Seq<u8>, Seq<u8>)>::empty());
        assert(dir.last() == (log_name(), image));
        assert(table_id(log_name()) is None);
        assert(table_files(dir.drop_last()) =~= Seq::<(u64, Seq<u8>)>::empty());
        assert(table_files(dir) =~= Seq::new(ids.len(), |i: int| (ids[i], images[i])));
    } else {
        let n = ids.len() - 1;
        lemma_table_files_of_dir(image, ids.drop_last(), images.drop_last());
        assert(dir.drop_last() =~= dir_files_of(image, ids.drop_last(), images.drop_last()));
        assert(dir.last() == (table_name(ids[n]), images[n]));
        lemma_table_name_id(ids[n]);
        assert(table_files(dir) =~= Seq::new(ids.len(), |i: int| (ids[i], images[i])));
    }
}

/// A restart changes nothing: an engine that is opened on the files that a
/// sound engine leaves behind holds the same memtable and the same tables,
/// answers every get alike, and is sound again.
pub proof fn law_restart_keeps_answers(
    e: Engine,
    max_bytes: usize,
    r: Result<Engine, EngineError>,
    k: Seq<u8>,
)
    requires
        sound(e),
        Engine::open_effect(max_bytes, e.dir(), r),
    ensures
        r is Ok,
        sound(r.unwrap()),
        r.unwrap()@.mem == e@.mem,
        r.unwrap()@.tables == e@.tables,
        r.unwrap()@.get(k) == e@.get(k),
        r.unwrap().table_ids() == e.table_ids(),
        r.unwrap().log().image() == e.log().image(),
{
    let image = e.log().image();
    let ids = e.table_ids();
    let images = e.table_images();
    let dir = e.dir();
    e.lemma_tables_hold_images();
    law_files_hold_log(e);
    lemma_table_files_of_dir(image, ids, images);
    let tables = table_files(dir);
    let keys = tables.map_values(|t: (u64, Seq<u8>)| t.0);
    assert(keys =~= ids);
    lemma_sorted_order_identity(keys);
    assert(arranged_tables(tables) =~= tables);
    assert forall|i: int| 0 <= i < tables.len() implies table_view((#[trigger] tables[i]).1) is Some by {
        assert(tables[i].1 == images[i]);
    }
    lemma_arranged_in_order(log_records(image));
    let again = r.unwrap();
    assert(again@.tables =~= e@.tables) by {
        assert forall|i: int| 0 <= i < tables.len() implies table_view(tables[i].1).unwrap()
            == e@.tables[i] by {
            assert(tables[i].1 == images[i]);
        }
    }
    assert(again.table_ids() =~= ids);
    law_open_continues_log(again, max_bytes, dir);
}

/// An engine that is opened on an empty directory is sound and holds nothing.
pub proof fn law_empty_directory_is_sound(max_bytes: usize, r: Result<Engine, EngineError>)
    requires
        Engine::open_effect(max_bytes, Seq::empty(), r),
    ensures
        r is Ok,
        sound(r.unwrap()),
        r.unwrap()@.mem == Map::<Seq<u8>, Seq<u8>>::empty(),
        r.unwrap()@.tables == Seq::<TableView>::empty(),
{
    let files = Seq::<(Seq<u8>, Seq<u8>)>::empty();
    lemma_empty_log_in_order();
    let tables = table_files(files);
    assert(tables =~= Seq::<(u64, Seq<u8>)>::empty());
    assert(tables.map_values(|t: (u64, Seq<u8>)| t.0) =~= Seq::<u64>::empty());
    assert(arranged_tables(tables) =~= Seq::<(u64, Seq<u8>)>::empty());
    assert(log_image_of(files) =~= Seq::<u8>::empty());
    lemma_arranged_in_order(log_records(Seq::<u8>::empty()));
    let e = r.unwrap();
    law_open_continues_log(e, max_bytes, files);
    assert(e@.tables =~= Seq::<TableView>::empty());
    assert(e.table_ids() =~= Seq::<u64>::empty());
}

/// A put leaves a sound engine sound.
pub proof fn law_put_keeps_sound(
    pre: Engine,
    post: Engine,
    key: Seq<u8>,
    val: Seq<u8>,
    r: Result<Option<Vec<u8>>, EngineError>,
)
    requires
        sound(pre),
        post.wf(),
        Engine::put_effect(pre, post, key, val, r),
    ensures
        sound(post),
{
    if r is Ok {
        let due = pre@.flush_due(key, val);
        law_put_appends_in_order(pre, post, key, val, r);
        lemma_empty_log_in_order();
        let before = records_before(pre, due);
        let rec = record_of(pre.next_lsn(), 1, key, val);
        let now = log_records(post.log().image());
        assert(now.drop_last() =~= before);
        assert(now.last() == rec);
        if val.len() == 0 {
            assert(val =~= Seq::<u8>::empty());
        }
        assert(apply_record(apply_records(Map::empty(), before), rec) == apply_records(
            Map::empty(),
            before,
        ).insert(key, val));
        assert forall|i: int| 0 <= i < now.len() implies (#[trigger] now[i]).key.len() > 0 by {
            if i < before.len() {
                assert(now[i] == before[i]);
            }
        }
        lemma_ids_after(pre, post, due);
    }
}

/// A delete leaves a sound engine sound.
pub proof fn law_delete_keeps_sound(
    pre: Engine,
    post: Engine,
    key: Seq<u8>,
    r: Result<Option<Vec<u8>>, EngineError>,
)
    requires
        sound(pre),
        post.wf(),
        Engine::delete_effect(pre, post, key, r),
    ensures
        sound(post),
{
    if r is Ok {
        law_delete_appends_in_order(pre, post, key, r);
        let before = log_records(pre.log().image());
        let rec = record_of(pre.next_lsn(), 2, key, Seq::empty());
        let now = log_records(post.log().image());
        assert(now.drop_last() =~= before);
        assert(now.last() == rec);
        assert forall|i: int| 0 <= i < now.len() implies (#[trigger] now[i]).key.len() > 0 by {
            if i < before.len() {
                assert(now[i] == before[i]);
            }
        }
        lemma_ids_after(pre, post, false);
    }
}

/// A flush leaves a sound engine sound.
pub proof fn law_flush_keeps_sound(pre: Engine, post: Engine)
    requires
        sound(pre),
        post.wf(),
        post.flushed_from(pre),
    ensures
        sound(post),
{
    lemma_empty_log_in_order();
    let ids = post.table_ids();
    assert forall|i: int, j: int| 0 <= i < j < ids.len() implies ids[i] < ids[j] by {
        assert(ids.drop_last()[i] == ids[i]);
        if j < ids.len() - 1 {
            assert(ids.drop_last()[j] == ids[j]);
        }
    }
}

/// The ids of the tables still ascend after a put or a delete.
proof fn lemma_ids_after(pre: Engine, post: Engine, flushed: bool)
    requires
        strictly_ascending(pre.table_ids()),
        post.tables_after(pre, flushed),
    ensures
        strictly_ascending(post.table_ids()),
{
    if flushed {
        let ids = post.table_ids();
        assert forall|i: int, j: int| 0 <= i < j < ids.len() implies ids[i] < ids[j] by {
            assert(ids.drop_last()[i] == ids[i]);
            if j < ids.len() - 1 {
                assert(ids.drop_last()[j] == ids[j]);
            }
        }
    }
}

} // verus!
