//! The log-structured store: the in-memory index and the rules of the write
//! path, the read path, recovery and compaction.
//!
//! The store's files are read and written by the caller; each operation here
//! says which bytes go to which generation file, and what the index becomes.
//! The ghost model `files` holds what the store has put into each generation
//! file, and `values` the value that the store holds for each live key.
use crate::error::KvsError;
use crate::generation::{convert_command_generation_path, generation_file_name, joined};
use crate::record::{
    decode_at, decode_command, encode_command, encode_spec, lemma_decode_append,
    lemma_decode_encode, lemma_encode_nonempty, quotes_well, Command, CommandModel,
};
use crossbeam_skiplist::SkipMap;
use vstd::prelude::*;

verus! {

/// Once this many bytes have been written since the last compaction, the
/// store compacts its files.
pub const COMPACTION_THRESHOLD: u64 = 4 * 1024 * 1024;

#[verifier::external_type_specification]
#[verifier::external_body]
#[verifier::reject_recursive_types(K)]
#[verifier::reject_recursive_types(V)]
pub struct ExSkipMap<K, V>(SkipMap<K, V>);

/// What an index holds: each key's generation and offset.
pub uninterp spec fn index_entries(m: SkipMap<String, (u64, u64)>) -> Map<Seq<char>, (u64, u64)>;

/// Relies on crossbeam_skiplist::SkipMap::new: an empty map.
#[verifier::external_body]
fn index_new() -> (r: SkipMap<String, (u64, u64)>)
    ensures
        index_entries(r) =~= Map::empty(),
{
    SkipMap::new()
}

/// Relies on crossbeam_skiplist::SkipMap::get: the value of a key, if any.
#[verifier::external_body]
fn index_get(m: &SkipMap<String, (u64, u64)>, key: &String) -> (r: Option<(u64, u64)>)
    ensures
        r == (if index_entries(*m).contains_key(key@) {
            Some(index_entries(*m)[key@])
        } else {
            None
        }),
{
    m.get(key).map(|e| *e.value())
}

/// Relies on crossbeam_skiplist::SkipMap::insert: the key maps to the value,
/// in place of any earlier value.
#[verifier::external_body]
fn index_insert(m: &mut SkipMap<String, (u64, u64)>, key: String, value: (u64, u64))
    ensures
        index_entries(*final(m)) == index_entries(*old(m)).insert(key@, value),
{
    m.insert(key, value);
}

/// Relies on crossbeam_skiplist::SkipMap::remove: the key is absent after.
#[verifier::external_body]
fn index_remove(m: &mut SkipMap<String, (u64, u64)>, key: &String)
    ensures
        index_entries(*final(m)) == index_entries(*old(m)).remove(key@),
{
    m.remove(key);
}

/// The order of `String`s: lexicographic over the characters, which is the
/// order of their UTF-8 bytes; a proper prefix comes first.
pub open spec fn key_lt(a: Seq<char>, b: Seq<char>) -> bool
    decreases a.len(),
{
    if a.len() == 0 {
        b.len() > 0
    } else if b.len() == 0 {
        false
    } else if a[0] != b[0] {
        (a[0] as u32) < (b[0] as u32)
    } else {
        key_lt(a.drop_first(), b.drop_first())
    }
}

/// Relies on crossbeam_skiplist::SkipMap::iter: each entry of the map once,
/// sorted by key.
#[verifier::external_body]
fn index_snapshot(m: &SkipMap<String, (u64, u64)>) -> (r: Vec<(String, (u64, u64))>)
    ensures
        forall|i: int, j: int| 0 <= i < j < r@.len() ==> key_lt(r@[i].0@, r@[j].0@),
        forall|i: int|
            0 <= i < r@.len() ==> index_entries(*m).contains_key(#[trigger] r@[i].0@)
                && index_entries(*m)[r@[i].0@] == r@[i].1,
        forall|i: int, j: int| 0 <= i < j < r@.len() ==> r@[i].0@ != r@[j].0@,
        forall|k: Seq<char>|
            #[trigger] index_entries(*m).contains_key(k) ==> exists|i: int|
                0 <= i < r@.len() && r@[i].0@ == k,
{
    m.iter().map(|e| (e.key().clone(), *e.value())).collect()
}

/// The location of a record: a generation and a byte offset in its file.
#[derive(Clone, Copy, Debug, PartialEq, Eq, Structural)]
pub struct CommandOffset {
    pub generation: u64,
    pub offset: u64,
}

/// The record at `offset` of `file` sets `key` to `value`.
pub open spec fn holds_set(file: Seq<u8>, offset: int, key: Seq<char>, value: Seq<char>) -> bool {
    decode_at(file, offset) matches Some((c, _)) && c == (CommandModel::Put { key, value })
}

/// Points each key of `updates` at its new offset in generation `gc`.
fn relocate(kv: &mut SkipMap<String, (u64, u64)>, updates: &Vec<(String, u64)>, gc: u64)
    requires
        forall|m1: int, m2: int| 0 <= m1 < m2 < updates@.len() ==> updates@[m1].0@ != updates@[m2].0@,
        forall|m: int| 0 <= m < updates@.len() ==> index_entries(*old(kv)).contains_key(#[trigger] updates@[m].0@),
    ensures
        index_entries(*final(kv)).dom() == index_entries(*old(kv)).dom(),
        forall|m: int| 0 <= m < updates@.len() ==> index_entries(*final(kv))[(#[trigger] updates@[m]).0@] == (gc, updates@[m].1),
{
    let ghost start = index_entries(*kv);
    let mut j: usize = 0;
    while j < updates.len()
        invariant
            0 <= j <= updates@.len(),
            forall|m1: int, m2: int| 0 <= m1 < m2 < updates@.len() ==> updates@[m1].0@ != updates@[m2].0@,
            forall|m: int| 0 <= m < updates@.len() ==> start.contains_key(#[trigger] updates@[m].0@),
            index_entries(*kv).dom() == start.dom(),
            forall|m: int| 0 <= m < j ==> index_entries(*kv)[(#[trigger] updates@[m]).0@] == (gc, updates@[m].1),
        decreases updates@.len() - j,
    {
        index_insert(kv, updates[j].0.clone(), (gc, updates[j].1));
        proof {
            assert(index_entries(*kv).dom() =~= start.dom());
            assert forall|m: int| 0 <= m < j + 1 implies index_entries(*kv)[(#[trigger] updates@[m]).0@] == (gc, updates@[m].1) by {
                if m < j {
                    assert(updates@[m].0@ != updates@[j as int].0@);
                }
            }
        }
        j = j + 1;
    }
}

/// A planned compaction: the rewritten live records, and where each key's
/// record stands among them.
pub struct CompactionPlan {
    generation: u64,
    bytes: Vec<u8>,
    updates: Vec<(String, u64)>,
    at: CommandOffset,
    old_index: Ghost<Map<Seq<char>, (u64, u64)>>,
    old_values: Ghost<Map<Seq<char>, Seq<char>>>,
    old_files: Ghost<Map<u64, Seq<u8>>>,
    snapshot: Ghost<Seq<(String, (u64, u64))>>,
    new_values: Ghost<Map<Seq<char>, Seq<char>>>,
    new_offsets: Ghost<Map<Seq<char>, u64>>,
    keys: Ghost<Seq<Seq<char>>>,
}

impl CompactionPlan {
    /// The values that the rewritten records hold.
    pub closed spec fn values(self) -> Map<Seq<char>, Seq<char>> {
        self.new_values@
    }

    /// The rewritten records.
    pub closed spec fn encoded(self) -> Seq<u8> {
        self.bytes@
    }

    pub closed spec fn spec_generation(&self) -> u64 {
        self.generation
    }

    /// The writer's location when the plan was made.
    pub closed spec fn base(self) -> CommandOffset {
        self.at
    }

    /// The plan was made on the state `w`, which has not changed since.
    pub closed spec fn made_from(self, w: KvStoreWriter) -> bool {
        let snapshot = self.snapshot@;
        let ks = self.keys@;
        let updates = self.updates@;
        let newvals = self.new_values@;
        let newoff = self.new_offsets@;
        &&& w.index() == self.old_index@
        &&& w.values@ == self.old_values@
        &&& w.files@ == self.old_files@
        &&& w.writer_offset == self.at
        &&& self.at.generation + 2 <= u64::MAX
        &&& self.generation == self.at.generation + 1
        &&& forall|k: Seq<char>| #[trigger] w.index().contains_key(k) ==> exists|i: int| 0 <= i < snapshot.len() && snapshot[i].0@ == k
        &&& forall|j: int| 0 <= j < snapshot.len() ==> w.index().contains_key(#[trigger] snapshot[j].0@)
        &&& forall|j1: int, j2: int| 0 <= j1 < j2 < snapshot.len() ==> snapshot[j1].0@ != snapshot[j2].0@
        &&& forall|j1: int, j2: int| 0 <= j1 < j2 < snapshot.len() ==> key_lt(snapshot[j1].0@, snapshot[j2].0@)
        &&& replay_values(self.bytes@, 0, Map::empty()) == Some(newvals)
        &&& ks.len() == snapshot.len()
        &&& forall|j: int| 0 <= j < ks.len() ==> #[trigger] ks[j] == snapshot[j].0@
        &&& self.bytes@ == records_of(ks, newvals)
        &&& updates.len() == ks.len()
        &&& forall|j: int| 0 <= j < ks.len() ==> (#[trigger] updates[j]).0@ == ks[j] && updates[j].1 == newoff[ks[j]]
        &&& newvals.dom() == ks.to_set()
        &&& newoff.dom() == newvals.dom()
        &&& forall|k: Seq<char>| #[trigger] newvals.contains_key(k) ==> holds_set(self.bytes@, newoff[k] as int, k, newvals[k])
    }

    /// The generation whose file receives the rewritten records.
    #[verifier::when_used_as_spec(spec_generation)]
    pub fn generation(&self) -> (r: u64)
        ensures
            r == self.spec_generation(),
    {
        self.generation
    }

    /// The rewritten records, to write to the file of `generation()`.
    pub fn bytes(&self) -> (r: &[u8])
        ensures
            r@ == self.encoded(),
    {
        self.bytes.as_slice()
    }

    /// The writer's location when the plan was made; a plan applies only to
    /// a state whose location is still this one.
    pub fn based_on(&self) -> (r: CommandOffset)
        ensures
            r == self.base(),
    {
        self.at
    }
}

/// `sources` gives the bytes of every file of `files`, and gives no other
/// bytes for them.
pub open spec fn sources_hold(sources: Seq<(u64, Vec<u8>)>, files: Map<u64, Seq<u8>>) -> bool {
    &&& forall|g: u64| #[trigger] files.contains_key(g) ==> exists|i: int| 0 <= i < sources.len() && sources[i].0 == g
    &&& forall|i: int| 0 <= i < sources.len() && files.contains_key(#[trigger] sources[i].0) ==> sources[i].1@ == files[sources[i].0]
}

/// The first source for generation `g`.
fn find_source(sources: &Vec<(u64, Vec<u8>)>, g: u64) -> (r: Option<usize>)
    ensures
        r matches Some(i) ==> i < sources@.len() && sources@[i as int].0 == g,
        r is None ==> forall|i: int| 0 <= i < sources@.len() ==> sources@[i].0 != g,
{
    let mut i: usize = 0;
    while i < sources.len()
        invariant
            0 <= i <= sources@.len(),
            forall|j: int| 0 <= j < i ==> sources@[j].0 != g,
        decreases sources@.len() - i,
    {
        if sources[i].0 == g {
            return Some(i);
        }
        i = i + 1;
    }
    None
}

/// Reads values out of the store's files. It holds only the directory's
/// path: each read opens the file afresh.
#[derive(Clone)]
pub struct KvStoreReader {
    dir_path: std::sync::Arc<std::path::PathBuf>,
}

impl KvStoreReader {
    pub closed spec fn dir(&self) -> std::sync::Arc<std::path::PathBuf> {
        self.dir_path
    }

    /// A reader of the files in `dir_path`.
    pub fn new(dir_path: std::sync::Arc<std::path::PathBuf>) -> (r: Self)
        ensures
            r.dir() == dir_path,
    {
        Self { dir_path }
    }

    /// The path of the file of `generation`.
    pub fn path_of(&self, generation: u64) -> (r: std::path::PathBuf)
        ensures
            r == joined(*self.dir(), generation_file_name(generation)),
    {
        convert_command_generation_path(&self.dir_path, generation)
    }

    /// The value of the `Set` record at `start` of `bytes`; fails where no
    /// record, or a `Remove` record, starts there.
    pub fn value_at(bytes: &[u8], start: usize) -> (r: Result<String, KvsError>)
        ensures
            match decode_at(bytes@, start as int) {
                Some((CommandModel::Put { value, .. }, _)) => r matches Ok(v) && v@ == value,
                _ => r is Err,
            },
    {
        match decode_command(bytes, start) {
            Ok((Command::Put { value, .. }, _)) => Ok(value),
            Ok((Command::Remove { .. }, _)) => Err(KvsError::CorruptLog),
            Err(e) => Err(e),
        }
    }
}

/// A record encoded and ready to be appended to the writer's file.
pub struct PendingWrite {
    command: Command,
    bytes: Vec<u8>,
}

impl PendingWrite {
    #[verifier::type_invariant]
    spec fn inv(self) -> bool {
        &&& self.bytes@ == encode_spec(self.command@)
        &&& quotes_well(self.command@.key())
        &&& self.command@ matches CommandModel::Put { value, .. } ==> quotes_well(value)
    }

    pub closed spec fn command(self) -> CommandModel {
        self.command@
    }

    pub closed spec fn encoded(self) -> Seq<u8> {
        self.bytes@
    }

    /// The bytes to append.
    pub fn bytes(&self) -> (r: &[u8])
        ensures
            r@ == self.encoded(),
            r@ == encode_spec(self.command()),
    {
        proof {
            use_type_invariant(self);
        }
        self.bytes.as_slice()
    }
}

/// The writer's state: the index, the location where the next record goes,
/// and the count of bytes written since the last compaction.
pub struct KvStoreWriter {
    kv: SkipMap<String, (u64, u64)>,
    writer_offset: CommandOffset,
    uncompaction_size: u64,
    generations: Vec<u64>,
    files: Ghost<Map<u64, Seq<u8>>>,
    values: Ghost<Map<Seq<char>, Seq<char>>>,
    compacted_size: Ghost<nat>,
}

impl KvStoreWriter {
    /// The value that the store holds for each live key.
    pub closed spec fn values(&self) -> Map<Seq<char>, Seq<char>> {
        self.values@
    }

    /// The bytes that the store has put into each of its generation files.
    pub closed spec fn files(&self) -> Map<u64, Seq<u8>> {
        self.files@
    }

    /// The index: where the record of each live key stands.
    pub closed spec fn index(&self) -> Map<Seq<char>, (u64, u64)> {
        index_entries(self.kv)
    }

    pub closed spec fn writer_location(&self) -> CommandOffset {
        self.writer_offset
    }

    /// The size of the file that the last compaction wrote; 0 before any.
    pub closed spec fn compacted(&self) -> nat {
        self.compacted_size@
    }

    pub closed spec fn uncompacted(&self) -> u64 {
        self.uncompaction_size
    }

    /// The generations of the store's files, ascending; the last is the
    /// writer's.
    pub closed spec fn generation_list(&self) -> Seq<u64> {
        self.generations@
    }

    /// The store's invariant: the index part (below), and the store's values
    /// are what replaying its files, in the order of their generations,
    /// gives.
    pub closed spec fn wf(&self) -> bool {
        &&& self.index_wf()
        &&& replay_files(self.generations@, self.files@, Map::empty()) == Some(self.values@)
        &&& files_size(self.generations@, self.files@) == self.compacted_size@ + self.uncompaction_size
    }

    /// Every indexed key locates a `Set` record of its value in the store's
    /// files, and the writer appends past every other generation.
    pub closed spec fn index_wf(&self) -> bool {
        let gw = self.writer_offset.generation;
        &&& self.index().dom() == self.values@.dom()
        &&& forall|k: Seq<char>| #[trigger]
            self.index().contains_key(k) ==> {
                let (g, o) = self.index()[k];
                &&& self.files@.contains_key(g)
                &&& holds_set(self.files@[g], o as int, k, self.values@[k])
            }
        &&& self.files@.contains_key(gw)
        &&& self.files@[gw].len() == self.writer_offset.offset
        &&& self.files@.dom() == self.generations@.to_set()
        &&& self.generations@.len() >= 1
        &&& self.generations@.last() == gw
        &&& forall|i: int, j: int|
            0 <= i < j < self.generations@.len() ==> #[trigger] self.generations@[i]
                < #[trigger] self.generations@[j]
    }

    /// A store with no files read yet: its writer would start generation 0.
    pub fn new() -> (r: KvStoreWriter)
        ensures
            r.wf(),
            r.values() == Map::<Seq<char>, Seq<char>>::empty(),
            r.writer_location() == (CommandOffset { generation: 0, offset: 0 }),
            r.uncompacted() == 0,
            r.generation_list() == seq![0u64],
    {
        let r = KvStoreWriter {
            kv: index_new(),
            writer_offset: CommandOffset { generation: 0, offset: 0 },
            uncompaction_size: 0,
            generations: vec![0u64],
            files: Ghost(Map::empty().insert(0u64, Seq::<u8>::empty())),
            values: Ghost(Map::empty()),
            compacted_size: Ghost(0),
        };
        proof {
            assert(r.generations@.to_set() =~= set![0u64]);
            assert(r.generations@.drop_last() =~= Seq::<u64>::empty());
            assert(replay_files(Seq::<u64>::empty(), r.files@, Map::empty()) == Some(Map::<Seq<char>, Seq<char>>::empty()));
            assert(r.files@[0] =~= Seq::<u8>::empty());
            assert(replay_values(Seq::<u8>::empty(), 0, Map::<Seq<char>, Seq<char>>::empty()) == Some(Map::<Seq<char>, Seq<char>>::empty()));
            assert(r.values@ =~= Map::<Seq<char>, Seq<char>>::empty());
            assert(files_size(Seq::<u64>::empty(), r.files@) == 0);
            assert(r.files@.dom() =~= set![0u64]);
        }
        r
    }

    /// Where the record of `key` stands, `None` if the key is not live.
    pub fn lookup(&self, key: &String) -> (r: Option<CommandOffset>)
        requires
            self.wf(),
        ensures
            r is Some <==> self.values().contains_key(key@),
            r matches Some(l) ==> self.index()[key@] == (l.generation, l.offset)
                && self.files().contains_key(l.generation)
                && holds_set(self.files()[l.generation], l.offset as int, key@, self.values()[key@]),
    {
        match index_get(&self.kv, key) {
            Some((g, o)) => Some(CommandOffset { generation: g, offset: o }),
            None => None,
        }
    }

    /// The location where the next record will be appended.
    pub fn writer_offset(&self) -> (r: CommandOffset)
        ensures
            r == self.writer_location(),
    {
        self.writer_offset
    }

    /// The bytes written since the last compaction.
    pub fn uncompaction_size(&self) -> (r: u64)
        ensures
            r == self.uncompacted(),
    {
        self.uncompaction_size
    }

    /// Encodes `Set{key, value}` for the writer's file.
    pub fn prepare_set(&self, key: String, value: String) -> (r: Result<PendingWrite, KvsError>)
        ensures
            r is Ok,
            r matches Ok(p) ==> p.command() == (CommandModel::Put { key: key@, value: value@ }),
    {
        let command = Command::Put { key, value };
        match encode_command(&command) {
            Ok(bytes) => Ok(PendingWrite { command, bytes }),
            Err(e) => Err(e),
        }
    }

    /// Encodes `Remove{key}` for the writer's file; fails with `KeyNotFound`,
    /// and encodes nothing, where the key is not live.
    pub fn prepare_remove(&self, key: String) -> (r: Result<PendingWrite, KvsError>)
        requires
            self.wf(),
        ensures
            r matches Err(KvsError::KeyNotFound) <==> !self.values().contains_key(key@),
            self.values().contains_key(key@) ==> r is Ok,
            r matches Ok(p) ==> p.command() == (CommandModel::Remove { key: key@ }),
    {
        if index_get(&self.kv, &key).is_none() {
            return Err(KvsError::KeyNotFound);
        }
        let command = Command::Remove { key };
        match encode_command(&command) {
            Ok(bytes) => Ok(PendingWrite { command, bytes }),
            Err(e) => Err(e),
        }
    }

    /// Records a write whose bytes the caller has appended to the writer's
    /// file and flushed: the index now locates the new record (a `Set`) or no
    /// longer holds the key (a `Remove`). Gives whether a compaction is due.
    /// Fails with `Overflow`, changing nothing, where the offset or the count
    /// of bytes would leave `u64`.
    pub fn commit(&mut self, pending: PendingWrite) -> (r: Result<bool, KvsError>)
        requires
            old(self).wf(),
        ensures
            final(self).wf(),
            ({
                let gw = old(self).writer_location().generation;
                let o = old(self).writer_location().offset;
                let n = pending.encoded().len();
                let fits = o + n <= u64::MAX && old(self).uncompacted() + n <= u64::MAX;
                &&& fits ==> {
                    &&& r == Ok::<bool, KvsError>(final(self).uncompacted() >= COMPACTION_THRESHOLD)
                    &&& final(self).files() == old(self).files().insert(gw, old(self).files()[gw] + pending.encoded())
                    &&& final(self).writer_location() == (CommandOffset { generation: gw, offset: (o + n) as u64 })
                    &&& final(self).uncompacted() == old(self).uncompacted() + n
                    &&& final(self).generation_list() == old(self).generation_list()
                    &&& final(self).values() == apply_command(old(self).values(), pending.command())
                    &&& final(self).index() == match pending.command() {
                        CommandModel::Put { key, .. } => old(self).index().insert(key, (gw, o)),
                        CommandModel::Remove { key } => old(self).index().remove(key),
                    }
                }
                &&& !fits ==> {
                    &&& r matches Err(KvsError::Overflow)
                    &&& final(self).files() == old(self).files()
                    &&& final(self).values() == old(self).values()
                    &&& final(self).index() == old(self).index()
                    &&& final(self).writer_location() == old(self).writer_location()
                    &&& final(self).uncompacted() == old(self).uncompacted()
                    &&& final(self).generation_list() == old(self).generation_list()
                }
            }),
    {
        proof {
            use_type_invariant(&pending);
        }
        let n = pending.bytes.len();
        let o = self.writer_offset.offset;
        let gw = self.writer_offset.generation;
        if n as u64 > u64::MAX - o || n as u64 > u64::MAX - self.uncompaction_size {
            return Err(KvsError::Overflow);
        }
        let ghost old_files = self.files@;
        let ghost old_values = self.values@;
        let ghost old_index = self.index();
        let ghost file = old_files[gw];
        let ghost enc = pending.bytes@;
        proof {
            lemma_decode_encode(pending.command@, file, Seq::empty());
            assert(file + enc + Seq::<u8>::empty() =~= file + enc);
            self.files@ = old_files.insert(gw, file + enc);
            lemma_append_keeps_sets(old_files, gw, enc, old_index, old_values);
        }
        match pending.command {
            Command::Put { key, value } => {
                proof {
                    self.values@ = old_values.insert(key@, value@);
                }
                index_insert(&mut self.kv, key, (gw, o));
            },
            Command::Remove { key } => {
                proof {
                    self.values@ = old_values.remove(key@);
                }
                index_remove(&mut self.kv, &key);
            },
        }
        self.writer_offset.offset = o + n as u64;
        self.uncompaction_size = self.uncompaction_size + n as u64;
        proof {
            assert(self.index().dom() =~= self.values@.dom());
            assert(self.files@.dom() =~= old_files.dom());
            let f = self.files@;
            assert forall|k: Seq<char>| #[trigger] self.index().contains_key(k) implies {
                let (g, off) = self.index()[k];
                &&& f.contains_key(g)
                &&& holds_set(f[g], off as int, k, self.values@[k])
            } by {
                if k != pending.command@.key() {
                    assert(old_index.contains_key(k));
                    assert(self.index()[k] == old_index[k]);
                }
            }
            let gens = self.generations@;
            let d = gens.drop_last();
            assert forall|i: int| 0 <= i < d.len() implies old_files[#[trigger] d[i]] == f[d[i]] by {
                assert(gens[i] < gens[gens.len() - 1]);
            }
            lemma_replay_files_frame(d, old_files, f, Map::empty());
            let m1 = replay_files(d, old_files, Map::empty())->0;
            lemma_encode_nonempty(pending.command@);
            lemma_replay_append(file, enc, 0, m1, old_values, pending.command@);
            assert(f[gens.last()] == file + enc);
            lemma_files_size_frame(d, old_files, f);
        }
        Ok(self.uncompaction_size >= COMPACTION_THRESHOLD)
    }

    /// Replays the log file of `generation`, whose bytes are `bytes`: each
    /// `Set` record now locates its key, each `Remove` deletes its key, in
    /// the order of the file. The writer moves past the generation, and the
    /// file's bytes count as uncompacted. Files are read in ascending order
    /// of generation, before anything is written.
    pub fn load_command_file(&mut self, generation: u64, bytes: &[u8]) -> (r: Result<(), KvsError>)
        requires
            old(self).wf(),
            old(self).writer_location().offset == 0,
            old(self).writer_location().generation <= generation < u64::MAX,
        ensures
            final(self).index_wf(),
            r is Ok ==> final(self).wf(),
            r is Ok <==> replay_values(bytes@, 0, old(self).values()) is Some
                && old(self).uncompacted() + bytes@.len() <= u64::MAX,
            r is Ok ==> {
                &&& final(self).values() == replay_values(bytes@, 0, old(self).values())->0
                &&& final(self).index() == replay_index(bytes@, generation, 0, old(self).index())->0
                &&& final(self).files() == old(self).files().remove(
                    old(self).writer_location().generation,
                ).insert(generation, bytes@).insert((generation + 1) as u64, Seq::empty())
                &&& final(self).writer_location() == (CommandOffset {
                    generation: (generation + 1) as u64,
                    offset: 0,
                })
                &&& final(self).uncompacted() == old(self).uncompacted() + bytes@.len()
                &&& final(self).generation_list() == old(self).generation_list().drop_last().push(
                    generation,
                ).push((generation + 1) as u64)
            },
            r matches Err(e) ==> (e is Overflow <==> old(self).uncompacted() + bytes@.len() > u64::MAX),
            r matches Err(e) ==> e is CorruptLog || e is SerdeJson || e is Overflow,
    {
        let len = bytes.len();
        if len as u64 > u64::MAX - self.uncompaction_size {
            return Err(KvsError::Overflow);
        }
        let gw = self.writer_offset.generation;
        let ghost old_files = self.files@;
        let ghost old_gens = self.generations@;
        let ghost start_values = self.values@;
        let ghost start_index = self.index();
        proof {
            assert forall|k: Seq<char>| #[trigger] self.index().contains_key(k) implies self.index()[k].0 != gw by {
                if self.index()[k].0 == gw {
                    assert(decode_at(old_files[gw], self.index()[k].1 as int) is None);
                }
            }
            assert forall|g: u64| #[trigger] old_files.contains_key(g) implies g <= gw by {
                let i = choose|i: int| 0 <= i < old_gens.len() && old_gens[i] == g;
                if i < old_gens.len() - 1 {
                    assert(old_gens[i] < old_gens[old_gens.len() - 1]);
                }
            }
            self.files@ = old_files.remove(gw).insert(generation, bytes@).insert(
                (generation + 1) as u64,
                Seq::empty(),
            );
        }
        self.generations.pop();
        self.generations.push(generation);
        self.generations.push(generation + 1);
        self.writer_offset = CommandOffset { generation: generation + 1, offset: 0 };
        self.uncompaction_size = self.uncompaction_size + len as u64;
        proof {
            let gs = self.generations@;
            assert(gs.drop_last().drop_last() =~= old_gens.drop_last());
            assert forall|i: int, j: int| 0 <= i < j < gs.len() implies #[trigger] gs[i] < #[trigger] gs[j] by {
                if j < old_gens.len() - 1 {
                    assert(gs[i] == old_gens[i] && gs[j] == old_gens[j]);
                } else if i < old_gens.len() - 1 {
                    assert(gs[i] == old_gens[i]);
                    assert(old_gens[i] < old_gens[old_gens.len() - 1]);
                }
            }
            let d = old_gens.drop_last();
            assert(old_gens =~= d.push(gw));
            d.lemma_push_to_set_commute(gw);
            d.lemma_push_to_set_commute(generation);
            d.push(generation).lemma_push_to_set_commute((generation + 1) as u64);
            assert(!d.contains(gw)) by {
                if d.contains(gw) {
                    let i = choose|i: int| 0 <= i < d.len() && d[i] == gw;
                    assert(old_gens[i] < old_gens[old_gens.len() - 1]);
                }
            }
            assert(d.to_set().insert(gw).remove(gw) =~= d.to_set());
            assert(self.files@.dom() =~= gs.to_set());
        }
        let mut offset: usize = 0;
        while offset < len
            invariant
                self.index_wf(),
                len == bytes@.len(),
                offset <= len,
                self.files@.contains_key(generation),
                self.files@[generation] == bytes@,
                self.writer_offset.generation == generation + 1,
                generation < u64::MAX,
                self.files@ == old_files.remove(gw).insert(generation, bytes@).insert(
                    (generation + 1) as u64,
                    Seq::empty(),
                ),
                old_gens.len() >= 1,
                self.generations@ == old_gens.drop_last().push(generation).push((generation + 1) as u64),
                self.writer_offset.offset == 0,
                self.uncompaction_size == old(self).uncompaction_size + len,
                replay_values(bytes@, offset as int, self.values@) == replay_values(bytes@, 0, start_values),
                start_values == old(self).values@,
                start_index == index_entries(old(self).kv),
                replay_index(bytes@, generation, offset as int, self.index()) == replay_index(bytes@, generation, 0, start_index),
                self.compacted_size == old(self).compacted_size,
            decreases len - offset,
        {
            let ghost before = self.values@;
            match decode_command(bytes, offset) {
                Ok((command, end)) => {
                    let ghost c = command@;
                    let ghost old_index = self.index();
                    match command {
                        Command::Put { key, value } => {
                            proof {
                                self.values@ = before.insert(key@, value@);
                            }
                            index_insert(&mut self.kv, key, (generation, offset as u64));
                        },
                        Command::Remove { key } => {
                            proof {
                                self.values@ = before.remove(key@);
                            }
                            index_remove(&mut self.kv, &key);
                        },
                    }
                    proof {
                        assert(self.index().dom() =~= self.values@.dom());
                        assert forall|k: Seq<char>| #[trigger] self.index().contains_key(k) implies {
                            let (g, o) = self.index()[k];
                            &&& self.files@.contains_key(g)
                            &&& holds_set(self.files@[g], o as int, k, self.values@[k])
                        } by {
                            if k != c.key() {
                                assert(old_index.contains_key(k));
                            }
                        }
                    }
                    offset = end;
                },
                Err(e) => {
                    proof {
                        assert(replay_values(bytes@, offset as int, self.values@) is None);
                    }
                    return Err(e);
                },
            }
        }
        proof {
            let d = old_gens.drop_last();
            let gs = self.generations@;
            assert(replay_values(bytes@, len as int, self.values@) == Some(self.values@));
            assert forall|i: int| 0 <= i < d.len() implies old_files[#[trigger] d[i]] == self.files@[d[i]] by {
                assert(old_gens[i] < old_gens[old_gens.len() - 1]);
            }
            lemma_replay_files_frame(d, old_files, self.files@, Map::empty());
            assert(old_gens.drop_last() == d);
            assert(old_files[old_gens.last()] =~= Seq::<u8>::empty());
            assert(replay_values(Seq::<u8>::empty(), 0, start_values) == Some(start_values));
            assert(gs.drop_last() =~= d.push(generation));
            assert(gs.drop_last().drop_last() =~= d);
            assert(replay_files(gs.drop_last(), self.files@, Map::empty()) == Some(self.values@));
            assert(replay_values(Seq::<u8>::empty(), 0, self.values@) == Some(self.values@));
            lemma_files_size_frame(d, old_files, self.files@);
            assert(d.push(generation).drop_last() =~= d);
            assert(self.files@[(generation + 1) as u64].len() == 0);
            assert(self.files@[generation] == bytes@);
            assert(files_size(d.push(generation), self.files@) == files_size(d, self.files@) + len);
            assert(files_size(gs, self.files@) == files_size(d, old_files) + len);
            assert(files_size(old_gens, old_files) == files_size(d, old_files));
        }
        Ok(())
    }

    /// The live records of `snapshot`, read from `sources` and rewritten one
    /// after another: the bytes, each key with the offset of its record, and
    /// in ghost form the values read, the offsets and the keys in order.
    #[verifier::rlimit(100)]
    fn rewrite_live(&self, snapshot: &Vec<(String, (u64, u64))>, sources: &Vec<(u64, Vec<u8>)>) -> (r: Result<
        (
            Vec<u8>,
            Vec<(String, u64)>,
            Ghost<Map<Seq<char>, Seq<char>>>,
            Ghost<Map<Seq<char>, u64>>,
            Ghost<Seq<Seq<char>>>,
        ),
        KvsError,
    >)
        requires
            self.wf(),
            forall|j: int|
                0 <= j < snapshot@.len() ==> self.index().contains_key(#[trigger] snapshot@[j].0@)
                    && self.index()[snapshot@[j].0@] == snapshot@[j].1,
            forall|j1: int, j2: int| 0 <= j1 < j2 < snapshot@.len() ==> snapshot@[j1].0@ != snapshot@[j2].0@,
        ensures
            r matches Ok((out, updates, newvals, newoff, ks)) ==> {
                &&& replay_values(out@, 0, Map::empty()) == Some(newvals@)
                &&& ks@.len() == snapshot@.len()
                &&& forall|j: int| 0 <= j < ks@.len() ==> #[trigger] ks@[j] == snapshot@[j].0@
                &&& out@ == records_of(ks@, newvals@)
                &&& updates@.len() == ks@.len()
                &&& forall|j: int| 0 <= j < ks@.len() ==> (#[trigger] updates@[j]).0@ == ks@[j] && updates@[j].1 == newoff@[ks@[j]]
                &&& newvals@.dom() == ks@.to_set()
                &&& newoff@.dom() == newvals@.dom()
                &&& forall|k: Seq<char>| #[trigger] newvals@.contains_key(k) ==> holds_set(out@, newoff@[k] as int, k, newvals@[k])
                &&& sources_hold(sources@, self.files()) ==> forall|k: Seq<char>| #[trigger] newvals@.contains_key(k) ==> newvals@[k] == self.values()[k]
            },
            sources_hold(sources@, self.files()) ==> r is Ok,
    {
        let mut out: Vec<u8> = Vec::new();
        let mut updates: Vec<(String, u64)> = Vec::new();
        let ghost mut newvals: Map<Seq<char>, Seq<char>> = Map::empty();
        let ghost mut newoff: Map<Seq<char>, u64> = Map::empty();
        let ghost mut ks: Seq<Seq<char>> = Seq::empty();
        proof {
            assert(ks.to_set() =~= Set::<Seq<char>>::empty());
            assert(newvals.dom() =~= Set::<Seq<char>>::empty());
            assert(newoff.dom() =~= Set::<Seq<char>>::empty());
        }
        let mut i: usize = 0;
        while i < snapshot.len()
            invariant
                self.wf(),
                0 <= i <= snapshot@.len(),
                forall|j: int|
                    0 <= j < snapshot@.len() ==> self.index().contains_key(#[trigger] snapshot@[j].0@)
                        && self.index()[snapshot@[j].0@] == snapshot@[j].1,
                forall|j1: int, j2: int| 0 <= j1 < j2 < snapshot@.len() ==> snapshot@[j1].0@ != snapshot@[j2].0@,
                replay_values(out@, 0, Map::empty()) == Some(newvals),
                ks.len() == i,
                forall|j: int| 0 <= j < i ==> #[trigger] ks[j] == snapshot@[j].0@,
                out@ == records_of(ks, newvals),
                updates@.len() == i,
                forall|j: int| 0 <= j < i ==> (#[trigger] updates@[j]).0@ == ks[j] && updates@[j].1 == newoff[ks[j]],
                newvals.dom() == ks.to_set(),
                newoff.dom() == newvals.dom(),
                forall|k: Seq<char>| #[trigger] newvals.contains_key(k) ==> holds_set(out@, newoff[k] as int, k, newvals[k]),
                sources_hold(sources@, self.files()) ==> forall|k: Seq<char>| #[trigger] newvals.contains_key(k) ==> newvals[k] == self.values()[k],
            decreases snapshot@.len() - i,
        {
            let key = &snapshot[i].0;
            let (g, o) = snapshot[i].1;
            let si = match find_source(sources, g) {
                Some(si) => si,
                None => return Err(KvsError::CorruptLog),
            };
            let src = &sources[si].1;
            if o > src.len() as u64 {
                return Err(KvsError::CorruptLog);
            }
            proof {
                assert(self.index().contains_key(key@));
                if sources_hold(sources@, self.files()) {
                    assert(sources@[si as int].1@ == self.files()[g]);
                }
            }
            let value = match decode_command(src.as_slice(), o as usize) {
                Ok((Command::Put { key: found, value }, _)) => {
                    if found != *key {
                        return Err(KvsError::CorruptLog);
                    }
                    value
                },
                Ok((Command::Remove { .. }, _)) => return Err(KvsError::CorruptLog),
                Err(e) => return Err(e),
            };
            let command = Command::Put { key: key.clone(), value };
            let bytes = match encode_command(&command) {
                Ok(b) => b,
                Err(e) => return Err(e),
            };
            let off = out.len() as u64;
            let ghost before = out@;
            out.extend_from_slice(bytes.as_slice());
            proof {
                assert(before + bytes@ =~= out@);
                assert(!ks.contains(key@)) by {
                    if ks.contains(key@) {
                        let j = choose|j: int| 0 <= j < ks.len() && ks[j] == key@;
                        assert(snapshot@[j].0@ == snapshot@[i as int].0@);
                    }
                }
                lemma_rewrite_step(before, bytes@, key@, command@->Put_value, newvals, newoff, ks, off);
                ks = ks.push(key@);
                newvals = newvals.insert(key@, command@->Put_value);
                newoff = newoff.insert(key@, off);
            }
            updates.push((key.clone(), off));
            i = i + 1;
            proof {
                assert forall|j: int| 0 <= j < i implies (#[trigger] updates@[j]).0@ == ks[j] && updates@[j].1 == newoff[ks[j]] by {
                    if j < i - 1 {
                        assert(ks[j] != key@);
                    }
                }
            }
        }
        Ok((out, updates, Ghost(newvals), Ghost(newoff), Ghost(ks)))
    }

    /// Plans a compaction, changing nothing: the live records, read from
    /// `sources` (the bytes of the store's files by generation), rewritten
    /// in ascending order of key into the bytes of a fresh generation. The
    /// caller writes them to that generation's file, flushes it, and then
    /// applies the plan. Fails where a live record cannot be read from
    /// `sources`, or where the generations would leave `u64`.
    #[verifier::rlimit(100)]
    pub fn plan_compaction(&self, sources: &Vec<(u64, Vec<u8>)>) -> (r: Result<CompactionPlan, KvsError>)
        requires
            self.wf(),
        ensures
            r matches Ok(p) ==> {
                &&& p.made_from(*self)
                &&& self.writer_location().generation + 2 <= u64::MAX
                &&& p.generation() == self.writer_location().generation + 1
                &&& exists|ks: Seq<Seq<char>>|
                    ks.no_duplicates() && ks.to_set() == p.values().dom() && (forall|i: int, j: int|
                        0 <= i < j < ks.len() ==> key_lt(ks[i], ks[j])) && p.encoded() == records_of(
                        ks,
                        p.values(),
                    )
                &&& p.values().dom() == self.values().dom()
                &&& sources_hold(sources@, self.files()) ==> p.values() == self.values()
            },
            sources_hold(sources@, self.files()) && self.writer_location().generation + 2
                <= u64::MAX ==> r is Ok,
    {
        let gw = self.writer_offset.generation;
        if gw > u64::MAX - 2 {
            return Err(KvsError::Overflow);
        }
        let snapshot = index_snapshot(&self.kv);
        let (out, updates, Ghost(newvals), Ghost(newoff), Ghost(ks)) = match self.rewrite_live(
            &snapshot,
            sources,
        ) {
            Ok(t) => t,
            Err(e) => return Err(e),
        };
        let plan = CompactionPlan {
            generation: gw + 1,
            bytes: out,
            updates,
            at: self.writer_offset,
            old_index: Ghost(self.index()),
            old_values: Ghost(self.values@),
            old_files: Ghost(self.files@),
            snapshot: Ghost(snapshot@),
            new_values: Ghost(newvals),
            new_offsets: Ghost(newoff),
            keys: Ghost(ks),
        };
        proof {
            assert(ks.no_duplicates()) by {
                assert forall|a: int, b: int| 0 <= a < ks.len() && 0 <= b < ks.len() && a != b implies ks[a] != ks[b] by {
                    assert(ks[a] == snapshot@[a].0@ && ks[b] == snapshot@[b].0@);
                }
            }
            assert forall|i: int, j: int| 0 <= i < j < ks.len() implies key_lt(ks[i], ks[j]) by {
                assert(ks[i] == snapshot@[i].0@ && ks[j] == snapshot@[j].0@);
            }
            assert(newvals.dom() =~= self.values@.dom()) by {
                assert forall|k: Seq<char>| self.index().contains_key(k) implies newvals.contains_key(k) by {
                    let m = choose|m: int| 0 <= m < snapshot@.len() && snapshot@[m].0@ == k;
                    assert(ks[m] == k);
                    assert(ks.contains(k));
                }
                assert forall|k: Seq<char>| newvals.contains_key(k) implies self.index().contains_key(k) by {
                    assert(ks.contains(k));
                    let m = choose|m: int| 0 <= m < ks.len() && ks[m] == k;
                    assert(snapshot@[m].0@ == k);
                }
            }
            if sources_hold(sources@, self.files()) {
                assert(newvals =~= self.values@);
            }
        }
        Ok(plan)
    }

    /// Applies a compaction planned on this very state, once the caller has
    /// written and flushed the planned bytes to the file of its generation:
    /// the index moves to the rewritten records and the writer to the
    /// generation after. Gives the generations whose files the caller then
    /// deletes: every file the store held before.
    #[verifier::rlimit(100)]
    pub fn apply_compaction(&mut self, plan: CompactionPlan) -> (r: Vec<u64>)
        requires
            old(self).wf(),
            plan.made_from(*old(self)),
        ensures
            final(self).wf(),
            ({
                let gc = plan.generation();
                &&& final(self).files() == Map::<u64, Seq<u8>>::empty().insert(gc, plan.encoded()).insert(
                    (gc + 1) as u64,
                    Seq::empty(),
                )
                &&& final(self).generation_list() == seq![gc, (gc + 1) as u64]
                &&& r@ == old(self).generation_list()
                &&& final(self).writer_location() == (CommandOffset {
                    generation: (gc + 1) as u64,
                    offset: 0,
                })
                &&& final(self).uncompacted() == 0
                &&& final(self).compacted() == plan.encoded().len()
                &&& final(self).values() == plan.values()
            }),
    {
        let gc = plan.generation;
        let out = plan.bytes;
        let updates = plan.updates;
        let ghost old_index = self.index();
        let ghost snapshot = plan.snapshot@;
        let ghost ks = plan.keys@;
        let ghost newvals = plan.new_values@;
        let ghost newoff = plan.new_offsets@;
        let obsolete = self.generations.clone();
        proof {
            assert forall|m1: int, m2: int| 0 <= m1 < m2 < updates@.len() implies updates@[m1].0@ != updates@[m2].0@ by {
                assert(updates@[m1].0@ == ks[m1] && ks[m1] == snapshot[m1].0@);
                assert(updates@[m2].0@ == ks[m2] && ks[m2] == snapshot[m2].0@);
            }
            assert forall|m: int| 0 <= m < updates@.len() implies index_entries(self.kv).contains_key(#[trigger] updates@[m].0@) by {
                assert(updates@[m].0@ == ks[m] && ks[m] == snapshot[m].0@);
            }
        }
        relocate(&mut self.kv, &updates, gc);
        proof {
            self.files@ = Map::<u64, Seq<u8>>::empty().insert(gc, out@).insert((gc + 1) as u64, Seq::empty());
            self.values@ = newvals;
        }
        self.generations = vec![gc, gc + 1];
        self.writer_offset = CommandOffset { generation: gc + 1, offset: 0 };
        self.uncompaction_size = 0;
        proof {
            self.compacted_size@ = out@.len();
            lemma_compacted_index(old_index, self.index(), snapshot, updates@, ks, newvals, newoff, out@, gc);
            lemma_compacted_wf(*self, gc, out@);
        }
        obsolete
    }

    /// The generations of the store's files, ascending.
    pub fn generations(&self) -> (r: Vec<u64>)
        ensures
            r@ == self.generation_list(),
    {
        self.generations.clone()
    }
}

/// The effect of one record on the store's values.
pub open spec fn apply_command(values: Map<Seq<char>, Seq<char>>, c: CommandModel) -> Map<
    Seq<char>,
    Seq<char>,
> {
    match c {
        CommandModel::Put { key, value } => values.insert(key, value),
        CommandModel::Remove { key } => values.remove(key),
    }
}

/// The effect of the record that starts at `p` of generation `g` on the
/// index: a `Set` locates its key there, a `Remove` drops its key.
pub open spec fn index_command(
    index: Map<Seq<char>, (u64, u64)>,
    c: CommandModel,
    g: u64,
    p: int,
) -> Map<Seq<char>, (u64, u64)> {
    match c {
        CommandModel::Put { key, .. } => index.insert(key, (g, p as u64)),
        CommandModel::Remove { key } => index.remove(key),
    }
}

/// The index after the records of `b`, the file of generation `g`, from
/// position `p` to the end are applied in order, each located at its start.
pub open spec fn replay_index(b: Seq<u8>, g: u64, p: int, index: Map<Seq<char>, (u64, u64)>) -> Option<
    Map<Seq<char>, (u64, u64)>,
>
    decreases b.len() - p,
{
    if p < 0 || p >= b.len() {
        Some(index)
    } else {
        match decode_at(b, p) {
            Some((c, e)) => if e <= p {
                None
            } else {
                replay_index(b, g, e, index_command(index, c, g, p))
            },
            None => None,
        }
    }
}

/// The values after the records of `b` from position `p` to the end are
/// applied in order; `None` where the bytes from `p` are not a sequence of
/// whole records.
pub open spec fn replay_values(b: Seq<u8>, p: int, values: Map<Seq<char>, Seq<char>>) -> Option<
    Map<Seq<char>, Seq<char>>,
>
    decreases b.len() - p,
{
    if p < 0 || p >= b.len() {
        Some(values)
    } else {
        match decode_at(b, p) {
            Some((c, e)) => if e <= p {
                None
            } else {
                replay_values(b, e, apply_command(values, c))
            },
            None => None,
        }
    }
}

/// What a read of `key` gives: the value of the record that the index
/// locates for it, in the store's files; `None` where the key is not indexed.
pub open spec fn stored_value(w: KvStoreWriter, key: Seq<char>) -> Option<Seq<char>> {
    if w.index().contains_key(key) {
        let (g, o) = w.index()[key];
        match decode_at(w.files()[g], o as int) {
            Some((CommandModel::Put { value, .. }, _)) => Some(value),
            _ => None,
        }
    } else {
        None
    }
}

/// A read through the index gives the store's value for the key, or `None`
/// where the key is not live.
pub proof fn lemma_stored_value(w: KvStoreWriter, key: Seq<char>)
    requires
        w.wf(),
    ensures
        stored_value(w, key) == (if w.values().contains_key(key) {
            Some(w.values()[key])
        } else {
            None
        }),
{
    if w.index().contains_key(key) {
        assert(w.values().contains_key(key));
    }
}

/// Round trip: once `Set{key, value}` is committed, a read of `key` gives
/// `value`.
pub proof fn lemma_set_then_get(w0: KvStoreWriter, w1: KvStoreWriter, key: Seq<char>, value: Seq<char>)
    requires
        w0.wf(),
        w1.wf(),
        w1.values() == apply_command(w0.values(), CommandModel::Put { key, value }),
    ensures
        stored_value(w1, key) == Some(value),
{
    lemma_stored_value(w1, key);
}

/// A committed record of another key leaves what a read of `key` gives as
/// it was; so a value stays readable until a later record of its own key.
pub proof fn lemma_other_key_kept(w0: KvStoreWriter, w1: KvStoreWriter, c: CommandModel, key: Seq<char>)
    requires
        w0.wf(),
        w1.wf(),
        w1.values() == apply_command(w0.values(), c),
        c.key() != key,
    ensures
        stored_value(w1, key) == stored_value(w0, key),
{
    lemma_stored_value(w0, key);
    lemma_stored_value(w1, key);
}

/// Overwrite: after `Set{key, v1}` and then `Set{key, v2}`, a read of `key`
/// gives `v2`.
pub proof fn lemma_overwrite(
    w0: KvStoreWriter,
    w1: KvStoreWriter,
    w2: KvStoreWriter,
    key: Seq<char>,
    v1: Seq<char>,
    v2: Seq<char>,
)
    requires
        w0.wf(),
        w1.wf(),
        w2.wf(),
        w1.values() == apply_command(w0.values(), CommandModel::Put { key, value: v1 }),
        w2.values() == apply_command(w1.values(), CommandModel::Put { key, value: v2 }),
    ensures
        stored_value(w2, key) == Some(v2),
{
    lemma_stored_value(w2, key);
}

/// Remove: after `Set{key, value}` and then `Remove{key}`, a read of `key`
/// gives `None`, and the key is not live, so a second remove is refused
/// with `KeyNotFound` (see `prepare_remove`).
pub proof fn lemma_remove_then_get(
    w0: KvStoreWriter,
    w1: KvStoreWriter,
    w2: KvStoreWriter,
    key: Seq<char>,
    value: Seq<char>,
)
    requires
        w0.wf(),
        w1.wf(),
        w2.wf(),
        w1.values() == apply_command(w0.values(), CommandModel::Put { key, value }),
        w2.values() == apply_command(w1.values(), CommandModel::Remove { key }),
    ensures
        stored_value(w2, key) is None,
        !w2.values().contains_key(key),
{
    lemma_stored_value(w2, key);
}

/// Persistence: replaying the store's files in the order of their
/// generations, from an empty store, gives the store's values; this is what
/// reopening the directory does, file by file, through `load_command_file`.
pub proof fn lemma_persistence(w: KvStoreWriter)
    requires
        w.wf(),
    ensures
        replay_files(w.generation_list(), w.files(), Map::empty()) == Some(w.values()),
{
}

/// The total size of the files of `gens`.
pub open spec fn files_size(gens: Seq<u64>, files: Map<u64, Seq<u8>>) -> nat
    decreases gens.len(),
{
    if gens.len() == 0 {
        0
    } else {
        files_size(gens.drop_last(), files) + files[gens.last()].len()
    }
}

/// One `Set` record of each key of `keys`, in that order, with its value.
pub open spec fn records_of(keys: Seq<Seq<char>>, values: Map<Seq<char>, Seq<char>>) -> Seq<u8>
    decreases keys.len(),
{
    if keys.len() == 0 {
        Seq::empty()
    } else {
        records_of(keys.drop_last(), values) + encode_spec(
            CommandModel::Put { key: keys.last(), value: values[keys.last()] },
        )
    }
}

proof fn lemma_files_size_frame(gens: Seq<u64>, f1: Map<u64, Seq<u8>>, f2: Map<u64, Seq<u8>>)
    requires
        forall|i: int| 0 <= i < gens.len() ==> f1[#[trigger] gens[i]] == f2[gens[i]],
    ensures
        files_size(gens, f1) == files_size(gens, f2),
    decreases gens.len(),
{
    if gens.len() > 0 {
        let d = gens.drop_last();
        assert forall|i: int| 0 <= i < d.len() implies f1[#[trigger] d[i]] == f2[d[i]] by {
            assert(d[i] == gens[i]);
        }
        lemma_files_size_frame(d, f1, f2);
        assert(f1[gens.last()] == f2[gens.last()]);
    }
}

proof fn lemma_records_of_frame(
    keys: Seq<Seq<char>>,
    v1: Map<Seq<char>, Seq<char>>,
    v2: Map<Seq<char>, Seq<char>>,
)
    requires
        forall|i: int| 0 <= i < keys.len() ==> v1[#[trigger] keys[i]] == v2[keys[i]],
    ensures
        records_of(keys, v1) == records_of(keys, v2),
    decreases keys.len(),
{
    if keys.len() > 0 {
        let d = keys.drop_last();
        assert forall|i: int| 0 <= i < d.len() implies v1[#[trigger] d[i]] == v2[d[i]] by {
            assert(d[i] == keys[i]);
        }
        lemma_records_of_frame(d, v1, v2);
        assert(v1[keys.last()] == v2[keys.last()]);
    }
}

/// Compaction bounds: the store's files hold, in all, the file that the last
/// compaction wrote (one `Set` record per key that was live then, see
/// `plan_compaction`) and the bytes written since, which `commit` counts and
/// reports due for compaction once they reach `COMPACTION_THRESHOLD`.
pub proof fn lemma_compaction_bounds(w: KvStoreWriter)
    requires
        w.wf(),
    ensures
        files_size(w.generation_list(), w.files()) == w.compacted() + w.uncompacted(),
        w.generation_list().len() >= 1,
        w.files().contains_key(w.writer_location().generation),
{
}

/// A history of a store: each state is well formed, and each step either
/// commits a record (`Some`) or keeps the values (`None`: a compaction
/// whose sources held the files).
pub open spec fn history(ws: Seq<KvStoreWriter>, cs: Seq<Option<CommandModel>>) -> bool {
    &&& ws.len() == cs.len() + 1
    &&& forall|i: int| 0 <= i < ws.len() ==> (#[trigger] ws[i]).wf()
    &&& forall|i: int|
        0 <= i < cs.len() ==> (#[trigger] ws[i + 1]).values() == match cs[i] {
            Some(c) => apply_command(ws[i].values(), c),
            None => ws[i].values(),
        }
}

/// The step `j` of a history leaves `key` alone.
pub open spec fn leaves_key(cs: Seq<Option<CommandModel>>, j: int, key: Seq<char>) -> bool {
    !(cs[j] matches Some(c) && c.key() == key)
}

/// The last write wins: where step `i` of a history is the last record of
/// `key`, a read of `key` at the end gives that record's value, or `None`
/// after a `Remove` (and then the key is not live, so a remove is refused
/// with `KeyNotFound`), whatever records of other keys and compactions
/// come after it.
pub proof fn lemma_last_write_wins(
    ws: Seq<KvStoreWriter>,
    cs: Seq<Option<CommandModel>>,
    key: Seq<char>,
    i: int,
)
    requires
        history(ws, cs),
        0 <= i < cs.len(),
        cs[i] matches Some(c) && c.key() == key,
        forall|j: int| i < j < cs.len() ==> leaves_key(cs, j, key),
    ensures
        stored_value(ws.last(), key) == match cs[i]->0 {
            CommandModel::Put { value, .. } => Some(value),
            CommandModel::Remove { .. } => None::<Seq<char>>,
        },
        cs[i]->0 is Remove ==> !ws.last().values().contains_key(key),
{
    lemma_key_after(ws, cs, key, i, cs.len() as int);
    assert(ws[cs.len() as int].wf());
    lemma_stored_value(ws.last(), key);
}

proof fn lemma_key_after(
    ws: Seq<KvStoreWriter>,
    cs: Seq<Option<CommandModel>>,
    key: Seq<char>,
    i: int,
    n: int,
)
    requires
        history(ws, cs),
        0 <= i < n <= cs.len(),
        cs[i] matches Some(c) && c.key() == key,
        forall|j: int| i < j < cs.len() ==> leaves_key(cs, j, key),
    ensures
        match cs[i]->0 {
            CommandModel::Put { value, .. } => ws[n].values().contains_key(key) && ws[n].values()[key] == value,
            CommandModel::Remove { .. } => !ws[n].values().contains_key(key),
        },
    decreases n,
{
    let m = n - 1;
    assert(ws[m + 1].values() == match cs[m] {
        Some(c) => apply_command(ws[m].values(), c),
        None => ws[m].values(),
    });
    assert(ws[m + 1] == ws[n]);
    if n > i + 1 {
        lemma_key_after(ws, cs, key, i, n - 1);
        assert(leaves_key(cs, n - 1, key));
    }
}

/// Persistence of the last write: a store `r` that reopens the files of the
/// end of a history (loading them in order, `loaded` as in `lemma_reopen`)
/// reads each key as the last record of it in the history left it.
pub proof fn lemma_reopen_last_write(
    ws: Seq<KvStoreWriter>,
    cs: Seq<Option<CommandModel>>,
    key: Seq<char>,
    i: int,
    loaded: Seq<Map<Seq<char>, Seq<char>>>,
    r: KvStoreWriter,
)
    requires
        history(ws, cs),
        0 <= i < cs.len(),
        cs[i] matches Some(c) && c.key() == key,
        forall|j: int| i < j < cs.len() ==> leaves_key(cs, j, key),
        loaded.len() == ws.last().generation_list().len() + 1,
        loaded[0] == Map::<Seq<char>, Seq<char>>::empty(),
        forall|j: int|
            0 <= j < ws.last().generation_list().len() ==> replay_values(
                ws.last().files()[ws.last().generation_list()[j]],
                0,
                #[trigger] loaded[j],
            ) == Some(loaded[j + 1]),
        r.wf(),
        r.values() == loaded.last(),
    ensures
        stored_value(r, key) == match cs[i]->0 {
            CommandModel::Put { value, .. } => Some(value),
            CommandModel::Remove { .. } => None::<Seq<char>>,
        },
{
    lemma_key_after(ws, cs, key, i, cs.len() as int);
    assert(ws[cs.len() as int].wf());
    lemma_reopen(ws.last(), loaded);
    lemma_stored_value(r, key);
}

/// Reopening: a fresh store that loads the store's files one by one, in the
/// order of their generations, holds after each load the values that
/// `load_command_file` gives (`loaded[i + 1]` from `loaded[i]`), and after
/// the last load, the values of the store it reopens.
pub proof fn lemma_reopen(w: KvStoreWriter, loaded: Seq<Map<Seq<char>, Seq<char>>>)
    requires
        w.wf(),
        loaded.len() == w.generation_list().len() + 1,
        loaded[0] == Map::<Seq<char>, Seq<char>>::empty(),
        forall|i: int|
            0 <= i < w.generation_list().len() ==> replay_values(
                w.files()[w.generation_list()[i]],
                0,
                #[trigger] loaded[i],
            ) == Some(loaded[i + 1]),
    ensures
        loaded.last() == w.values(),
{
    let gens = w.generation_list();
    lemma_replay_prefixes(gens, w.files(), loaded, gens.len() as int);
    assert(gens.subrange(0, gens.len() as int) =~= gens);
}

proof fn lemma_replay_prefixes(
    gens: Seq<u64>,
    files: Map<u64, Seq<u8>>,
    loaded: Seq<Map<Seq<char>, Seq<char>>>,
    n: int,
)
    requires
        0 <= n <= gens.len(),
        loaded.len() == gens.len() + 1,
        loaded[0] == Map::<Seq<char>, Seq<char>>::empty(),
        forall|i: int|
            0 <= i < gens.len() ==> replay_values(files[gens[i]], 0, #[trigger] loaded[i]) == Some(
                loaded[i + 1],
            ),
    ensures
        replay_files(gens.subrange(0, n), files, Map::empty()) == Some(loaded[n]),
    decreases n,
{
    if n > 0 {
        lemma_replay_prefixes(gens, files, loaded, n - 1);
        assert(gens.subrange(0, n).drop_last() =~= gens.subrange(0, n - 1));
        assert(gens.subrange(0, n).last() == gens[n - 1]);
        assert(replay_values(files[gens[n - 1]], 0, loaded[n - 1]) == Some(loaded[n]));
    } else {
        assert(gens.subrange(0, 0) =~= Seq::<u64>::empty());
    }
}

/// The values after the files of `gens`, in that order, are replayed.
pub open spec fn replay_files(gens: Seq<u64>, files: Map<u64, Seq<u8>>, values: Map<Seq<char>, Seq<char>>) -> Option<
    Map<Seq<char>, Seq<char>>,
>
    decreases gens.len(),
{
    if gens.len() == 0 {
        Some(values)
    } else {
        match replay_files(gens.drop_last(), files, values) {
            Some(m) => replay_values(files[gens.last()], 0, m),
            None => None,
        }
    }
}

/// Replaying files depends on the bytes of those files only.
proof fn lemma_replay_files_frame(
    gens: Seq<u64>,
    f1: Map<u64, Seq<u8>>,
    f2: Map<u64, Seq<u8>>,
    values: Map<Seq<char>, Seq<char>>,
)
    requires
        forall|i: int| 0 <= i < gens.len() ==> f1[#[trigger] gens[i]] == f2[gens[i]],
    ensures
        replay_files(gens, f1, values) == replay_files(gens, f2, values),
    decreases gens.len(),
{
    if gens.len() > 0 {
        let d = gens.drop_last();
        assert forall|i: int| 0 <= i < d.len() implies f1[#[trigger] d[i]] == f2[d[i]] by {
            assert(d[i] == gens[i]);
        }
        lemma_replay_files_frame(d, f1, f2, values);
        assert(f1[gens.last()] == f2[gens.last()]);
    }
}

/// Replaying whole records and then one more record appended after them.
proof fn lemma_replay_append(
    b: Seq<u8>,
    x: Seq<u8>,
    p: int,
    values: Map<Seq<char>, Seq<char>>,
    result: Map<Seq<char>, Seq<char>>,
    c: CommandModel,
)
    requires
        0 <= p <= b.len(),
        replay_values(b, p, values) == Some(result),
        x.len() > 0,
        decode_at(b + x, b.len() as int) == Some((c, (b.len() + x.len()) as int)),
    ensures
        replay_values(b + x, p, values) == Some(apply_command(result, c)),
    decreases b.len() - p,
{
    let bx = b + x;
    if p == b.len() {
        assert(replay_values(bx, (b.len() + x.len()) as int, apply_command(result, c)) == Some(
            apply_command(result, c),
        ));
    } else {
        let (c1, e) = decode_at(b, p)->0;
        lemma_decode_append(b, x, p);
        lemma_replay_append(b, x, e, apply_command(values, c1), result, c);
    }
}

/// One record more in a compacted file: the records before keep their
/// place, the new one decodes at the old end, and the file replays to the
/// values with the new one applied.
proof fn lemma_compaction_step(
    before: Seq<u8>,
    enc: Seq<u8>,
    c: CommandModel,
    values: Map<Seq<char>, Seq<char>>,
    offsets: Map<Seq<char>, u64>,
)
    requires
        enc == encode_spec(c),
        quotes_well(c.key()),
        c matches CommandModel::Put { value, .. } ==> quotes_well(value),
        offsets.dom() == values.dom(),
        forall|k: Seq<char>| #[trigger] values.contains_key(k) ==> holds_set(before, offsets[k] as int, k, values[k]),
        replay_values(before, 0, Map::empty()) == Some(values),
    ensures
        forall|k: Seq<char>| #[trigger] values.contains_key(k) ==> holds_set(before + enc, offsets[k] as int, k, values[k]),
        decode_at(before + enc, before.len() as int) == Some((c, (before.len() + enc.len()) as int)),
        replay_values(before + enc, 0, Map::empty()) == Some(apply_command(values, c)),
{
    lemma_decode_encode(c, before, Seq::empty());
    assert(before + enc + Seq::<u8>::empty() =~= before + enc);
    assert forall|k: Seq<char>| #[trigger] values.contains_key(k) implies holds_set(before + enc, offsets[k] as int, k, values[k]) by {
        lemma_decode_append(before, enc, offsets[k] as int);
    }
    lemma_encode_nonempty(c);
    lemma_replay_append(before, enc, 0, Map::empty(), values, c);
}

/// The state that a compaction leaves is well formed.
proof fn lemma_compacted_wf(w: KvStoreWriter, gc: u64, out: Seq<u8>)
    requires
        gc < u64::MAX,
        w.index().dom() == w.values@.dom(),
        forall|k: Seq<char>| #[trigger] w.index().contains_key(k) ==> w.index()[k].0 == gc && holds_set(out, w.index()[k].1 as int, k, w.values@[k]),
        w.files@ == Map::<u64, Seq<u8>>::empty().insert(gc, out).insert((gc + 1) as u64, Seq::empty()),
        w.generations@ == seq![gc, (gc + 1) as u64],
        w.writer_offset == (CommandOffset { generation: (gc + 1) as u64, offset: 0 }),
        w.uncompaction_size == 0,
        w.compacted_size@ == out.len(),
        replay_values(out, 0, Map::empty()) == Some(w.values@),
    ensures
        w.wf(),
{
    assert(w.generations@.to_set() =~= w.files@.dom()) by {
        assert(w.generations@[0] == gc);
        assert(w.generations@[1] == gc + 1);
    }
    let gs = w.generations@;
    assert(gs.drop_last() =~= seq![gc]);
    assert(gs.drop_last().drop_last() =~= Seq::<u64>::empty());
    assert(replay_files(Seq::<u64>::empty(), w.files@, Map::empty()) == Some(Map::<Seq<char>, Seq<char>>::empty()));
    assert(w.files@[gc] == out);
    assert(replay_files(gs.drop_last(), w.files@, Map::empty()) == Some(w.values@));
    assert(replay_values(Seq::<u8>::empty(), 0, w.values@) == Some(w.values@));
    assert(files_size(Seq::<u64>::empty(), w.files@) == 0);
    assert(files_size(seq![gc], w.files@) == out.len());
    assert(w.files@[(gc + 1) as u64].len() == 0);
    assert(gs.last() == gc + 1);
    assert(files_size(gs, w.files@) == out.len());
}

/// After the rewritten records' offsets are put into the index, every key of
/// the index locates its rewritten record.
proof fn lemma_compacted_index(
    old_index: Map<Seq<char>, (u64, u64)>,
    new_index: Map<Seq<char>, (u64, u64)>,
    snapshot: Seq<(String, (u64, u64))>,
    updates: Seq<(String, u64)>,
    ks: Seq<Seq<char>>,
    newvals: Map<Seq<char>, Seq<char>>,
    newoff: Map<Seq<char>, u64>,
    out: Seq<u8>,
    gc: u64,
)
    requires
        forall|k: Seq<char>| #[trigger] old_index.contains_key(k) ==> exists|i: int| 0 <= i < snapshot.len() && snapshot[i].0@ == k,
        forall|j: int| 0 <= j < snapshot.len() ==> old_index.contains_key(#[trigger] snapshot[j].0@),
        forall|j1: int, j2: int| 0 <= j1 < j2 < snapshot.len() ==> snapshot[j1].0@ != snapshot[j2].0@,
        forall|j1: int, j2: int| 0 <= j1 < j2 < snapshot.len() ==> key_lt(snapshot[j1].0@, snapshot[j2].0@),
        ks.len() == snapshot.len(),
        forall|j: int| 0 <= j < ks.len() ==> #[trigger] ks[j] == snapshot[j].0@,
        updates.len() == ks.len(),
        forall|j: int| 0 <= j < ks.len() ==> (#[trigger] updates[j]).0@ == ks[j] && updates[j].1 == newoff[ks[j]],
        newvals.dom() == ks.to_set(),
        newoff.dom() == newvals.dom(),
        forall|k: Seq<char>| #[trigger] newvals.contains_key(k) ==> holds_set(out, newoff[k] as int, k, newvals[k]),
        new_index.dom() == old_index.dom(),
        forall|m: int| 0 <= m < updates.len() ==> new_index[(#[trigger] updates[m]).0@] == (gc, updates[m].1),
    ensures
        newvals.dom() == new_index.dom(),
        forall|k: Seq<char>| #[trigger] new_index.contains_key(k) ==> new_index[k].0 == gc && holds_set(out, new_index[k].1 as int, k, newvals[k]),
        ks.no_duplicates(),
        forall|i: int, j: int| 0 <= i < j < ks.len() ==> key_lt(ks[i], ks[j]),
{
    assert forall|i: int, j: int| 0 <= i < j < ks.len() implies key_lt(ks[i], ks[j]) by {
        assert(ks[i] == snapshot[i].0@ && ks[j] == snapshot[j].0@);
    }
    assert forall|k: Seq<char>| old_index.contains_key(k) implies newvals.contains_key(k) by {
        let m = choose|m: int| 0 <= m < snapshot.len() && snapshot[m].0@ == k;
        assert(ks[m] == k);
        assert(ks.contains(k));
    }
    assert forall|k: Seq<char>| newvals.contains_key(k) implies old_index.contains_key(k) by {
        assert(ks.contains(k));
        let m = choose|m: int| 0 <= m < ks.len() && ks[m] == k;
        assert(snapshot[m].0@ == k);
    }
    assert(newvals.dom() =~= new_index.dom());
    assert forall|k: Seq<char>| #[trigger] new_index.contains_key(k) implies new_index[k].0 == gc && holds_set(out, new_index[k].1 as int, k, newvals[k]) by {
        let m = choose|m: int| 0 <= m < snapshot.len() && snapshot[m].0@ == k;
        assert(ks[m] == k);
        assert(updates[m].0@ == k);
    }
    assert forall|a: int, b: int| 0 <= a < ks.len() && 0 <= b < ks.len() && a != b implies ks[a] != ks[b] by {
        assert(ks[a] == snapshot[a].0@ && ks[b] == snapshot[b].0@);
    }
}

/// One step of rewriting the live records.
#[verifier::rlimit(50)]
proof fn lemma_rewrite_step(
    before: Seq<u8>,
    enc: Seq<u8>,
    key: Seq<char>,
    value: Seq<char>,
    values: Map<Seq<char>, Seq<char>>,
    offsets: Map<Seq<char>, u64>,
    keys: Seq<Seq<char>>,
    off: u64,
)
    requires
        enc == encode_spec(CommandModel::Put { key, value }),
        quotes_well(key),
        quotes_well(value),
        offsets.dom() == values.dom(),
        values.dom() == keys.to_set(),
        !keys.contains(key),
        off == before.len(),
        forall|k: Seq<char>| #[trigger] values.contains_key(k) ==> holds_set(before, offsets[k] as int, k, values[k]),
        replay_values(before, 0, Map::empty()) == Some(values),
        before == records_of(keys, values),
    ensures
        ({
            let nv = values.insert(key, value);
            let no = offsets.insert(key, off);
            let ks = keys.push(key);
            &&& no.dom() == nv.dom()
            &&& nv.dom() == ks.to_set()
            &&& forall|k: Seq<char>| #[trigger] nv.contains_key(k) ==> holds_set(before + enc, no[k] as int, k, nv[k])
            &&& replay_values(before + enc, 0, Map::empty()) == Some(nv)
            &&& before + enc == records_of(ks, nv)
        }),
{
    let c = CommandModel::Put { key, value };
    lemma_compaction_step(before, enc, c, values, offsets);
    let nv = values.insert(key, value);
    let ks = keys.push(key);
    assert(nv.dom() =~= ks.to_set()) by {
        keys.lemma_push_to_set_commute(key);
    }
    assert(offsets.insert(key, off).dom() =~= nv.dom());
    lemma_records_of_push(keys, values, key, value);
}

/// The records of the keys with one key more, whose value is new.
proof fn lemma_records_of_push(
    keys: Seq<Seq<char>>,
    values: Map<Seq<char>, Seq<char>>,
    key: Seq<char>,
    value: Seq<char>,
)
    requires
        !keys.contains(key),
    ensures
        records_of(keys.push(key), values.insert(key, value)) == records_of(keys, values)
            + encode_spec(CommandModel::Put { key, value }),
{
    let nv = values.insert(key, value);
    let ks = keys.push(key);
    assert forall|j: int| 0 <= j < keys.len() implies nv[#[trigger] keys[j]] == values[keys[j]] by {
        assert(keys.contains(keys[j]));
    }
    lemma_records_of_frame(keys, nv, values);
    assert(ks.drop_last() =~= keys);
    assert(ks.last() == key);
    assert(nv[key] == value);
}

/// Appending to one file keeps every indexed record in place.
proof fn lemma_append_keeps_sets(
    files: Map<u64, Seq<u8>>,
    gw: u64,
    enc: Seq<u8>,
    index: Map<Seq<char>, (u64, u64)>,
    values: Map<Seq<char>, Seq<char>>,
)
    requires
        files.contains_key(gw),
        forall|k: Seq<char>| #[trigger]
            index.contains_key(k) ==> {
                let (g, o) = index[k];
                &&& files.contains_key(g)
                &&& holds_set(files[g], o as int, k, values[k])
            },
    ensures
        forall|k: Seq<char>| #[trigger]
            index.contains_key(k) ==> {
                let (g, o) = index[k];
                let f = files.insert(gw, files[gw] + enc);
                &&& f.contains_key(g)
                &&& holds_set(f[g], o as int, k, values[k])
            },
{
    assert forall|k: Seq<char>| #[trigger] index.contains_key(k) implies {
        let (g, o) = index[k];
        let f = files.insert(gw, files[gw] + enc);
        &&& f.contains_key(g)
        &&& holds_set(f[g], o as int, k, values[k])
    } by {
        let (g, o) = index[k];
        if g == gw {
            lemma_decode_append(files[gw], enc, o as int);
        }
    }
}

} // verus!
