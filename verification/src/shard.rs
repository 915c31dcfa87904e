//! The shard router: the first byte of a key decides which engine holds the
//! key. The byte values are cut into as many ranges of equal width as there
//! are shards, and what is left over falls to the last shard.

use vstd::prelude::*;
use vstd::string::StringExecFns;
use crate::engine::got;
use crate::engine::Config;
use crate::engine::Engine;
use crate::engine::EngineError;
use crate::order::entries_view;

verus! {

/// The number of values that the first byte of a key can take.
pub const MAX_KEYSPACE: usize = 256;

/// Where a shard lives and how many bytes its memtable may hold.
#[derive(Debug, Clone)]
pub struct ShardMeta {
    dir: String,
    memtable_max_bytes: usize,
}

impl ShardMeta {
    /// The budget of the shard's memtable.
    pub closed spec fn max_bytes(&self) -> usize {
        self.memtable_max_bytes
    }

    /// The shard's directory.
    pub closed spec fn dir(&self) -> String {
        self.dir
    }

    /// A shard in the directory `dir` with the memtable budget
    /// `memtable_max_bytes`.
    pub fn new(dir: String, memtable_max_bytes: usize) -> (meta: ShardMeta)
        ensures
            meta.max_bytes() == memtable_max_bytes,
            meta.dir() == dir,
    {
        ShardMeta { dir, memtable_max_bytes }
    }
}

/// The character that writes the decimal digit `d`.
pub open spec fn digit_char(d: nat) -> char {
    if d == 0 {
        '0'
    } else if d == 1 {
        '1'
    } else if d == 2 {
        '2'
    } else if d == 3 {
        '3'
    } else if d == 4 {
        '4'
    } else if d == 5 {
        '5'
    } else if d == 6 {
        '6'
    } else if d == 7 {
        '7'
    } else if d == 8 {
        '8'
    } else {
        '9'
    }
}

/// The decimal digits of `n`, the most significant first, without leading
/// zeros.
pub open spec fn digits(n: nat) -> Seq<char>
    decreases n,
{
    if n < 10 {
        seq![digit_char(n)]
    } else {
        digits(n / 10).push(digit_char(n % 10))
    }
}

/// The path of the directory of shard `i`: `./temp/shard` followed by the
/// decimal digits of `i`.
pub open spec fn shard_dir_name(i: usize) -> Seq<char> {
    "./temp/shard"@ + digits(i as nat)
}

/// The digits that are still to be written before those of `rev`: none once
/// the number is used up.
spec fn leading(m: nat) -> Seq<char> {
    if m == 0 {
        Seq::empty()
    } else {
        digits(m)
    }
}

/// The characters of digits that were collected from the least significant
/// on, read from the most significant on.
spec fn collected(rev: Seq<u8>) -> Seq<char> {
    Seq::new(rev.len(), |k: int| digit_char(rev[rev.len() - 1 - k] as nat))
}

/// The text of one decimal digit.
fn digit_str(d: u8) -> (s: &'static str)
    requires
        d < 10,
    ensures
        s@ == seq![digit_char(d as nat)],
{
    proof {
        reveal_strlit("0");
        reveal_strlit("1");
        reveal_strlit("2");
        reveal_strlit("3");
        reveal_strlit("4");
        reveal_strlit("5");
        reveal_strlit("6");
        reveal_strlit("7");
        reveal_strlit("8");
        reveal_strlit("9");
    }
    let s: &'static str = if d == 0 {
        "0"
    } else if d == 1 {
        "1"
    } else if d == 2 {
        "2"
    } else if d == 3 {
        "3"
    } else if d == 4 {
        "4"
    } else if d == 5 {
        "5"
    } else if d == 6 {
        "6"
    } else if d == 7 {
        "7"
    } else if d == 8 {
        "8"
    } else {
        "9"
    };
    assert(s@ =~= seq![digit_char(d as nat)]);
    s
}

/// The directory of shard `i`.
pub fn shard_dir(i: usize) -> (dir: String)
    ensures
        dir@ == shard_dir_name(i),
{
    let mut rev: Vec<u8> = Vec::new();
    let mut m: usize = i / 10;
    rev.push((i % 10) as u8);
    assert(collected(rev@) =~= seq![digit_char((i % 10) as nat)]);
    assert(digits(i as nat) =~= leading(m as nat) + collected(rev@));
    while m > 0
        invariant
            rev@.len() >= 1,
            forall|k: int| 0 <= k < rev@.len() ==> #[trigger] rev@[k] < 10,
            digits(i as nat) == leading(m as nat) + collected(rev@),
        decreases m,
    {
        let ghost before = rev@;
        let d: u8 = (m % 10) as u8;
        rev.push(d);
        proof {
            assert(collected(rev@) =~= seq![digit_char(d as nat)] + collected(before));
            assert(digits(m as nat) =~= leading((m / 10) as nat) + seq![digit_char(d as nat)]);
            assert(leading((m / 10) as nat) + collected(rev@) =~= leading(m as nat) + collected(
                before,
            ));
        }
        m = m / 10;
    }
    let mut dir: String = String::from_str("./temp/shard");
    let n: usize = rev.len();
    let mut j: usize = n;
    assert(collected(rev@).take(0) =~= Seq::<char>::empty());
    assert(dir@ =~= "./temp/shard"@ + collected(rev@).take(0));
    while j > 0
        invariant
            j <= n,
            n == rev@.len(),
            forall|k: int| 0 <= k < rev@.len() ==> #[trigger] rev@[k] < 10,
            dir@ == "./temp/shard"@ + collected(rev@).take(n - j),
        decreases j,
    {
        j = j - 1;
        let ghost before = dir@;
        dir.append(digit_str(rev[j]));
        proof {
            let all = collected(rev@);
            assert(all[n - 1 - j] == digit_char(rev@[j as int] as nat));
            assert(all.take(n - j) =~= all.take(n - 1 - j).push(all[n - 1 - j]));
            assert(dir@ =~= "./temp/shard"@ + all.take(n - j));
        }
    }
    assert(collected(rev@).take(n as int) =~= collected(rev@));
    dir
}

/// One shard: an engine and where it lives.
pub struct ShardInstance {
    engine: Engine,
    meta: ShardMeta,
}

impl ShardInstance {
    /// The shard's engine.
    pub closed spec fn engine(&self) -> Engine {
        self.engine
    }

    /// Where the shard lives and what its budget is.
    pub closed spec fn meta(&self) -> ShardMeta {
        self.meta
    }

    /// The shard's engine is in order.
    pub open spec fn wf(&self) -> bool {
        self.engine().wf()
    }

    /// Opens the shard's engine on the files of the shard's directory.
    pub fn open(meta: ShardMeta, files: Vec<(Vec<u8>, Vec<u8>)>) -> (r: Result<
        ShardInstance,
        EngineError,
    >)
        ensures
            match r {
                Ok(shard) => shard.meta() == meta && Engine::open_effect(
                    meta.max_bytes(),
                    entries_view(files@),
                    Ok(shard.engine()),
                ),
                Err(e) => Engine::open_error(entries_view(files@)) == Some(e),
            },
    {
        let cfg = Config { dir: meta.dir.clone(), memtable_max_bytes: meta.memtable_max_bytes };
        match Engine::open(cfg, files) {
            Ok(engine) => Ok(ShardInstance { engine, meta }),
            Err(e) => Err(e),
        }
    }

    /// Stores `val` under `key` in the shard's engine.
    pub fn put(&mut self, key: &[u8], val: &[u8]) -> (r: Result<Option<Vec<u8>>, EngineError>)
        requires
            old(self).wf(),
        ensures
            final(self).wf(),
            final(self).meta() == old(self).meta(),
            Engine::put_effect(old(self).engine(), final(self).engine(), key@, val@, r),
    {
        self.engine.put(key, val)
    }

    /// The value under `key` in the shard's engine.
    pub fn get(&self, key: &[u8]) -> (r: Result<Option<Vec<u8>>, EngineError>)
        requires
            self.wf(),
        ensures
            got(r) == self.engine()@.get(key@),
    {
        self.engine.get(key)
    }
}

/// The shard that holds the keys whose first byte is `b`, where there are
/// `count` shards.
pub open spec fn route(count: nat, b: u8) -> nat {
    let step = 256nat / count;
    if step == 0 {
        (count - 1) as nat
    } else if b as nat / step < count {
        b as nat / step
    } else {
        (count - 1) as nat
    }
}

/// The shard that holds the keys whose first byte is `first`, where there
/// are `shard_count` shards.
pub fn shard_of(shard_count: usize, first: u8) -> (at: usize)
    requires
        shard_count >= 1,
    ensures
        at == route(shard_count as nat, first),
        at < shard_count,
{
    let step: usize = MAX_KEYSPACE / shard_count;
    if step == 0 {
        return shard_count - 1;
    }
    let at: usize = first as usize / step;
    if at < shard_count {
        at
    } else {
        shard_count - 1
    }
}

/// The files of the directory of shard `i`: none where no directory is given.
pub open spec fn dir_files(dirs: Seq<Vec<(Vec<u8>, Vec<u8>)>>, i: int) -> Seq<(Seq<u8>, Seq<u8>)> {
    if 0 <= i < dirs.len() {
        entries_view(dirs[i]@)
    } else {
        Seq::empty()
    }
}

/// The shards and the router in front of them.
pub struct ShardManager {
    shards: Vec<ShardInstance>,
}

impl ShardManager {
    /// The shards, in the order of their ranges.
    pub closed spec fn shards(&self) -> Seq<ShardInstance> {
        self.shards@
    }

    /// There is a shard, and every shard is in order.
    pub open spec fn wf(&self) -> bool {
        &&& self.shards().len() >= 1
        &&& forall|i: int| 0 <= i < self.shards().len() ==> (#[trigger] self.shards()[i]).wf()
    }

    /// Opens `shard_count` shards, shard `i` in the directory
    /// `./temp/shard<i>` and on the files `dirs[i]` of that directory, or on
    /// none where `dirs` is shorter. The first shard that
    /// cannot be opened gives the error.
    pub fn new(
        shard_count: usize,
        memtable_max_bytes: usize,
        dirs: Vec<Vec<(Vec<u8>, Vec<u8>)>>,
    ) -> (r: Result<ShardManager, EngineError>)
        requires
            shard_count >= 1,
        ensures
            match r {
                Ok(manager) => {
                    &&& manager.wf()
                    &&& manager.shards().len() == shard_count
                    &&& forall|i: int|
                        0 <= i < shard_count ==> Engine::open_effect(
                            memtable_max_bytes,
                            dir_files(dirs@, i),
                            Ok((#[trigger] manager.shards()[i]).engine()),
                        )
                    &&& forall|i: int|
                        0 <= i < shard_count ==> (#[trigger] manager.shards()[i]).meta().dir()@
                            == shard_dir_name(i as usize) && manager.shards()[i].meta().max_bytes()
                            == memtable_max_bytes
                },
                Err(e) => exists|i: int|
                    0 <= i < shard_count && #[trigger] Engine::open_error(dir_files(dirs@, i)) == Some(e)
                        && forall|j: int|
                        0 <= j < i ==> #[trigger] Engine::open_error(dir_files(dirs@, j)) is None,
            },
    {
        let ghost given = dirs@;
        let mut rest = dirs;
        let mut shards: Vec<ShardInstance> = Vec::new();
        let mut i: usize = 0;
        while i < shard_count
            invariant
                i <= shard_count,
                shards@.len() == i,
                given == dirs@,
                given.len() > i ==> rest@ == given.skip(i as int),
                given.len() <= i ==> rest@.len() == 0,
                forall|j: int|
                    0 <= j < i ==> (#[trigger] shards@[j]).wf() && Engine::open_effect(
                        memtable_max_bytes,
                        dir_files(given, j),
                        Ok(shards@[j].engine()),
                    ) && shards@[j].meta().dir()@ == shard_dir_name(j as usize)
                        && shards@[j].meta().max_bytes() == memtable_max_bytes,
            decreases shard_count - i,
        {
            let files: Vec<(Vec<u8>, Vec<u8>)> = if rest.len() > 0 {
                rest.remove(0)
            } else {
                Vec::new()
            };
            proof {
                if given.len() > i {
                    assert(files == given[i as int]);
                    assert(rest@ =~= given.skip(i + 1));
                } else {
                    assert(entries_view(files@) =~= Seq::empty());
                }
                assert(entries_view(files@) == dir_files(given, i as int));
            }
            let meta = ShardMeta { dir: shard_dir(i), memtable_max_bytes };
            match ShardInstance::open(meta, files) {
                Ok(shard) => {
                    let ghost before = shards@;
                    shards.push(shard);
                    assert forall|j: int| 0 <= j < i + 1 implies (#[trigger] shards@[j]).wf()
                        && Engine::open_effect(
                        memtable_max_bytes,
                        dir_files(given, j),
                        Ok(shards@[j].engine()),
                    ) && shards@[j].meta().dir()@ == shard_dir_name(j as usize)
                        && shards@[j].meta().max_bytes() == memtable_max_bytes by {
                        if j < i {
                            assert(shards@[j] == before[j]);
                        }
                    }
                },
                Err(e) => {
                    assert(Engine::open_error(dir_files(given, i as int)) == Some(e));
                    assert forall|j: int| 0 <= j < i implies #[trigger] Engine::open_error(
                        dir_files(given, j),
                    ) is None by {
                        assert(shards@[j].wf());
                    }
                    return Err(e);
                },
            }
            i = i + 1;
        }
        Ok(ShardManager { shards })
    }

    /// The shard that holds `key`; none for the empty key.
    pub fn shard_key(&self, key: &[u8]) -> (r: Option<usize>)
        requires
            self.wf(),
        ensures
            key@.len() == 0 ==> r is None,
            key@.len() > 0 ==> r is Some && r.unwrap() as nat == route(
                self.shards().len(),
                key@[0],
            ),
            r matches Some(i) ==> i < self.shards().len(),
    {
        if key.len() == 0 {
            return None;
        }
        Some(shard_of(self.shards.len(), key[0]))
    }

    /// Stores `val` under `key` in the shard that holds the key. The empty
    /// key is refused; the other shards stay as they are.
    pub fn put(&mut self, key: &[u8], val: &[u8]) -> (r: Result<Option<Vec<u8>>, EngineError>)
        requires
            old(self).wf(),
        ensures
            final(self).wf(),
            final(self).shards().len() == old(self).shards().len(),
            key@.len() == 0 ==> r == Err::<Option<Vec<u8>>, EngineError>(EngineError::InvalidKey)
                && final(self).shards() == old(self).shards(),
            key@.len() > 0 ==> Engine::put_effect(
                old(self).shards()[route(old(self).shards().len(), key@[0]) as int].engine(),
                final(self).shards()[route(old(self).shards().len(), key@[0]) as int].engine(),
                key@,
                val@,
                r,
            ) && final(self).shards()[route(old(self).shards().len(), key@[0]) as int].meta()
                == old(self).shards()[route(old(self).shards().len(), key@[0]) as int].meta()
                && forall|j: int|
                0 <= j < old(self).shards().len() && j != route(old(self).shards().len(), key@[0])
                    ==> #[trigger] final(self).shards()[j] == old(self).shards()[j],
    {
        match self.shard_key(key) {
            None => Err(EngineError::InvalidKey),
            Some(at) => {
                let r = self.shards[at].put(key, val);
                proof {
                    assert forall|i: int| 0 <= i < self.shards@.len() implies (
                    #[trigger] self.shards@[i]).wf() by {
                        if i != at {
                            assert(self.shards@[i] == old(self).shards@[i]);
                        }
                    }
                }
                r
            },
        }
    }

    /// The value under `key` in the shard that holds the key. The empty key
    /// is refused.
    pub fn get(&self, key: &[u8]) -> (r: Result<Option<Vec<u8>>, EngineError>)
        requires
            self.wf(),
        ensures
            key@.len() == 0 ==> r matches Err(EngineError::InvalidKey),
            key@.len() > 0 ==> got(r) == self.shards()[route(
                self.shards().len(),
                key@[0],
            ) as int].engine()@.get(key@),
    {
        match self.shard_key(key) {
            None => Err(EngineError::InvalidKey),
            Some(at) => self.shards[at].get(key),
        }
    }

    /// The number of shards.
    pub fn shard_count(&self) -> (n: usize)
        ensures
            n == self.shards().len(),
    {
        self.shards.len()
    }

    /// The files of the directory of shard `i` as they stand.
    pub fn shard_files(&self, i: usize) -> (files: Vec<(Vec<u8>, Vec<u8>)>)
        requires
            self.wf(),
            i < self.shards().len(),
        ensures
            entries_view(files@) == self.shards()[i as int].engine().dir(),
    {
        self.shards[i].engine.files()
    }
}

} // verus!
