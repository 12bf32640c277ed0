use vstd::prelude::*;

use crate::codec::{
    Cmd, CmdModel, Decoded, decode_cmd, enc_cmd, encode_cmd, encodes_all, lemma_encodes_all_concat,
    lemma_encodes_one, lemma_p_cmd_complete, lemma_p_cmd_sound, lemma_p_records_complete,
    lemma_p_records_sound, lemma_replay_push, p_records, replay,
};
use crate::error::KvsError;
use crate::text::{chars_eq, chars_of, string_from_chars};

verus! {

/// Once at least this many reclaimable characters sit in the logs, a write
/// triggers compaction.
pub const COMPACTION_THRESHOLD: u64 = 1024 * 1024;

// ============================================================================
// Types
// ============================================================================

/// The location of one record: the generation whose log holds it, the offset
/// of its first character in that log's text, and its exact length.
#[derive(Clone, Copy)]
pub struct CommandPos {
    pub gen: u64,
    pub pos: u64,
    pub len: u64,
}

/// One generation file held in memory: its number and its full text.
struct LogFile {
    gen: u64,
    data: Vec<char>,
}

/// One keydir entry: a key, where its latest `Set` record sits, and (for
/// specification only) the value that record binds.
struct IndexEntry {
    key: Vec<char>,
    cp: CommandPos,
    val: Ghost<Seq<char>>,
}

/// One deferred change to the store directory. The store records every
/// change it makes to its in-memory logs here; the owner drains the queue
/// with `take_actions` and applies each action to the real directory, in
/// order, to keep the directory equal to the store's logs.
pub enum DiskAction {
    /// Create the generation file, empty.
    Create(u64),
    /// Append the characters (encoded as UTF-8) to the generation file.
    Append(u64, Vec<char>),
    /// Delete the generation file.
    Delete(u64),
}

/// The mathematical form of a disk action.
pub enum DiskActionModel {
    Create(u64),
    Append(u64, Seq<char>),
    Delete(u64),
}

impl View for DiskAction {
    type V = DiskActionModel;

    open spec fn view(&self) -> DiskActionModel {
        match self {
            DiskAction::Create(g) => DiskActionModel::Create(*g),
            DiskAction::Append(g, x) => DiskActionModel::Append(*g, x@),
            DiskAction::Delete(g) => DiskActionModel::Delete(*g),
        }
    }
}

/// A directory of generation files, as a map from generation number to the
/// file's text.
pub open spec fn apply_action(d: Map<u64, Seq<char>>, a: DiskActionModel) -> Map<u64, Seq<char>> {
    match a {
        DiskActionModel::Create(g) => d.insert(g, Seq::empty()),
        DiskActionModel::Append(g, x) => if d.dom().contains(g) {
            d.insert(g, d[g] + x)
        } else {
            d
        },
        DiskActionModel::Delete(g) => d.remove(g),
    }
}

/// Apply a sequence of disk actions in order.
pub open spec fn apply_actions(d: Map<u64, Seq<char>>, s: Seq<DiskActionModel>) -> Map<
    u64,
    Seq<char>,
>
    decreases s.len(),
{
    if s.len() == 0 {
        d
    } else {
        apply_action(apply_actions(d, s.drop_last()), s.last())
    }
}

/// The view of a sequence of disk actions.
pub open spec fn action_models(s: Seq<DiskAction>) -> Seq<DiskActionModel> {
    s.map_values(|a: DiskAction| a@)
}

/// The directory that holds exactly the given generation files.
pub open spec fn files_disk(files: Seq<(u64, Seq<char>)>) -> Map<u64, Seq<char>>
    decreases files.len(),
{
    if files.len() == 0 {
        Map::empty()
    } else {
        files_disk(files.drop_last()).insert(files.last().0, files.last().1)
    }
}

/// The views of a list of generation files given as vectors.
pub open spec fn file_views(files: Seq<(u64, Vec<char>)>) -> Seq<(u64, Seq<char>)> {
    files.map_values(|p: (u64, Vec<char>)| (p.0, p.1@))
}

/// The records of the given generation files, in order, concatenated;
/// `None` if any file's text is not a well-formed sequence of records.
pub open spec fn files_records(files: Seq<(u64, Seq<char>)>) -> Option<Seq<CmdModel>>
    decreases files.len(),
{
    if files.len() == 0 {
        Some(Seq::empty())
    } else {
        match files_records(files.drop_last()) {
            Some(rs) => match p_records(files.last().1) {
                Some(r2) => Some(rs + r2),
                None => None,
            },
            None => None,
        }
    }
}

// ============================================================================
// Reclaimable-count accounting
// ============================================================================

/// Saturate at the counter's capacity: the count never wraps.
pub open spec fn sat64(x: int) -> int {
    if x > u64::MAX as int {
        u64::MAX as int
    } else {
        x
    }
}

/// One step of the reclaimable-count accounting, as replay performs it over
/// the map `m` the earlier records built: a `Set` that shadows a binding
/// makes the shadowed record's length reclaimable; a `Remove` does the same
/// and additionally makes its own record reclaimable.
pub open spec fn next_reclaim(u: int, m: Map<Seq<char>, Seq<char>>, c: CmdModel) -> int {
    match c {
        CmdModel::Put(k, _) => if m.contains_key(k) {
            sat64(u + enc_cmd(CmdModel::Put(k, m[k])).len())
        } else {
            u
        },
        CmdModel::Rm(k) => {
            let u2 = if m.contains_key(k) {
                sat64(u + enc_cmd(CmdModel::Put(k, m[k])).len())
            } else {
                u
            };
            sat64(u2 + enc_cmd(c).len())
        },
    }
}

/// Replay a record sequence over a starting map.
pub open spec fn replay_on(m: Map<Seq<char>, Seq<char>>, rs: Seq<CmdModel>) -> Map<
    Seq<char>,
    Seq<char>,
>
    decreases rs.len(),
{
    if rs.len() == 0 {
        m
    } else {
        let m2 = replay_on(m, rs.drop_last());
        match rs.last() {
            CmdModel::Put(k, v) => m2.insert(k, v),
            CmdModel::Rm(k) => m2.remove(k),
        }
    }
}

/// The reclaimable count after replaying a record sequence over a starting
/// count and map.
pub open spec fn reclaim_on(u: int, m: Map<Seq<char>, Seq<char>>, rs: Seq<CmdModel>) -> int
    decreases rs.len(),
{
    if rs.len() == 0 {
        u
    } else {
        next_reclaim(reclaim_on(u, m, rs.drop_last()), replay_on(m, rs.drop_last()), rs.last())
    }
}

/// The reclaimable count a fresh replay of a whole record sequence yields.
pub open spec fn replay_reclaim(rs: Seq<CmdModel>) -> int {
    reclaim_on(0, Map::empty(), rs)
}

/// Replaying over the empty map is plain replay.
proof fn lemma_replay_on_empty(rs: Seq<CmdModel>)
    ensures
        replay_on(Map::empty(), rs) == replay(rs),
    decreases rs.len(),
{
    if rs.len() == 0 {
    } else {
        lemma_replay_on_empty(rs.drop_last());
    }
}

/// Replaying concatenated records replays the second part over the first's
/// result.
proof fn lemma_replay_on_concat(m: Map<Seq<char>, Seq<char>>, a: Seq<CmdModel>, b: Seq<CmdModel>)
    ensures
        replay_on(m, a + b) == replay_on(replay_on(m, a), b),
    decreases b.len(),
{
    if b.len() == 0 {
        assert(a + b =~= a);
    } else {
        lemma_replay_on_concat(m, a, b.drop_last());
        assert((a + b).drop_last() =~= a + b.drop_last());
        assert((a + b).last() == b.last());
    }
}

/// Replaying more records over a plain replay extends the plain replay.
proof fn lemma_replay_extend(a: Seq<CmdModel>, b: Seq<CmdModel>)
    ensures
        replay_on(replay(a), b) == replay(a + b),
{
    lemma_replay_on_empty(a);
    lemma_replay_on_empty(a + b);
    lemma_replay_on_concat(Map::empty(), a, b);
}

/// The accounting of concatenated records continues from the first part's
/// count and map.
proof fn lemma_reclaim_on_concat(
    u: int,
    m: Map<Seq<char>, Seq<char>>,
    a: Seq<CmdModel>,
    b: Seq<CmdModel>,
)
    ensures
        reclaim_on(u, m, a + b) == reclaim_on(reclaim_on(u, m, a), replay_on(m, a), b),
    decreases b.len(),
{
    if b.len() == 0 {
        assert(a + b =~= a);
    } else {
        lemma_reclaim_on_concat(u, m, a, b.drop_last());
        lemma_replay_on_concat(m, a, b.drop_last());
        assert((a + b).drop_last() =~= a + b.drop_last());
        assert((a + b).last() == b.last());
    }
}

/// The accounting never leaves the counter's range, and never shrinks it.
proof fn lemma_next_reclaim_bounds(u: int, m: Map<Seq<char>, Seq<char>>, c: CmdModel)
    requires
        0 <= u <= u64::MAX,
    ensures
        u <= next_reclaim(u, m, c) <= u64::MAX,
{
}

/// The accounting stays within the counter's range over any record sequence.
proof fn lemma_reclaim_on_bounds(u: int, m: Map<Seq<char>, Seq<char>>, rs: Seq<CmdModel>)
    requires
        0 <= u <= u64::MAX,
    ensures
        0 <= reclaim_on(u, m, rs) <= u64::MAX,
    decreases rs.len(),
{
    if rs.len() == 0 {
    } else {
        lemma_reclaim_on_bounds(u, m, rs.drop_last());
        lemma_next_reclaim_bounds(
            reclaim_on(u, m, rs.drop_last()),
            replay_on(m, rs.drop_last()),
            rs.last(),
        );
    }
}

/// The accounting step is monotone in the running count.
proof fn lemma_next_reclaim_mono(u1: int, u2: int, m: Map<Seq<char>, Seq<char>>, c: CmdModel)
    requires
        0 <= u1 <= u2 <= u64::MAX,
    ensures
        next_reclaim(u1, m, c) <= next_reclaim(u2, m, c),
{
}

// ============================================================================
// The store
// ============================================================================

/// The log-structured key/value store. It holds the text of every live
/// generation file, the keydir mapping each live key to its latest `Set`
/// record, and a queue of directory changes not yet applied by the owner.
///
/// Its view is the key/value map it represents; `wf()` says the store is
/// coherent: every generation's text is a well-formed record log, the keydir
/// points at exactly the latest `Set` record of each live key, and replaying
/// the logs yields exactly the view.
pub struct KvStore {
    logs: Vec<LogFile>,
    current_gen: u64,
    index: Vec<IndexEntry>,
    uncompacted: u64,
    actions: Vec<DiskAction>,
    disk: Ghost<Map<u64, Seq<char>>>,
}

impl LogFile {
    /// The records this log holds (meaningful when `wf()` holds).
    spec fn records(&self) -> Seq<CmdModel> {
        match p_records(self.data@) {
            Some(rs) => rs,
            None => Seq::empty(),
        }
    }

    spec fn wf(&self) -> bool {
        p_records(self.data@) is Some
    }
}

/// All logs are well-formed record logs, in strictly ascending generation
/// order.
spec fn logs_wf(logs: Seq<LogFile>) -> bool {
    &&& forall|i: int| 0 <= i < logs.len() ==> (#[trigger] logs[i]).wf()
    &&& forall|i: int, j: int| 0 <= i < j < logs.len() ==> logs[i].gen < logs[j].gen
}

/// The records of all logs, in generation order.
spec fn logs_records(logs: Seq<LogFile>) -> Seq<CmdModel>
    decreases logs.len(),
{
    if logs.len() == 0 {
        Seq::empty()
    } else {
        logs_records(logs.drop_last()) + logs.last().records()
    }
}

/// The generation files held by the logs, as pairs.
spec fn log_pairs(logs: Seq<LogFile>) -> Seq<(u64, Seq<char>)> {
    logs.map_values(|l: LogFile| (l.gen, l.data@))
}

/// The keydir entry is backed by a log: the referenced range of the
/// referenced generation holds exactly the `Set` record binding this entry's
/// key to its value.
spec fn entry_ok(e: IndexEntry, logs: Seq<LogFile>) -> bool {
    exists|i: int|
        0 <= i < logs.len() && (#[trigger] logs[i]).gen == e.cp.gen && e.cp.pos + e.cp.len
            <= logs[i].data@.len() && logs[i].data@.subrange(
            e.cp.pos as int,
            e.cp.pos as int + e.cp.len as int,
        ) == enc_cmd(CmdModel::Put(e.key@, e.val@))
}

spec fn entries_ok(es: Seq<IndexEntry>, logs: Seq<LogFile>) -> bool {
    forall|i: int| 0 <= i < es.len() ==> entry_ok(#[trigger] es[i], logs)
}

/// No two keydir entries share a key.
spec fn keys_distinct(es: Seq<IndexEntry>) -> bool {
    forall|i: int, j: int| 0 <= i < j < es.len() ==> (#[trigger] es[i]).key@ != (#[trigger] es[j]).key@
}

/// The key/value map the keydir represents.
spec fn index_view(es: Seq<IndexEntry>) -> Map<Seq<char>, Seq<char>>
    decreases es.len(),
{
    if es.len() == 0 {
        Map::empty()
    } else {
        index_view(es.drop_last()).insert(es.last().key@, es.last().val@)
    }
}

impl View for KvStore {
    type V = Map<Seq<char>, Seq<char>>;

    closed spec fn view(&self) -> Map<Seq<char>, Seq<char>> {
        index_view(self.index@)
    }
}

impl KvStore {
    /// The generation currently appended to.
    pub closed spec fn gen(&self) -> u64 {
        self.current_gen
    }

    /// The generation files this store holds, in ascending generation order.
    pub closed spec fn log_seq(&self) -> Seq<(u64, Seq<char>)> {
        log_pairs(self.logs@)
    }

    /// The directory contents as of the last drain of the action queue.
    pub closed spec fn base_disk(&self) -> Map<u64, Seq<char>> {
        self.disk@
    }

    /// The directory changes not yet handed to the owner.
    pub closed spec fn pending(&self) -> Seq<DiskActionModel> {
        action_models(self.actions@)
    }

    /// The running count of reclaimable characters, never above what the
    /// replay accounting of the held logs yields (see `replay_reclaim`). A
    /// successful `set` leaves it at or below `COMPACTION_THRESHOLD`,
    /// compacting if the write pushed it past; `remove` does not compact, so
    /// it alone may leave the count above the threshold until the next
    /// write.
    pub closed spec fn reclaimable(&self) -> u64 {
        self.uncompacted
    }

    /// The store is coherent; every public operation preserves this.
    pub closed spec fn wf(&self) -> bool {
        &&& logs_wf(self.logs@)
        &&& self.logs@.len() >= 1
        &&& self.logs@.last().gen == self.current_gen
        &&& keys_distinct(self.index@)
        &&& entries_ok(self.index@, self.logs@)
        &&& index_view(self.index@) == replay(logs_records(self.logs@))
        &&& self.uncompacted as int <= replay_reclaim(logs_records(self.logs@))
        &&& apply_actions(self.disk@, self.pending()) == files_disk(self.log_seq())
    }
}

// ============================================================================
// Keydir facts
// ============================================================================

/// With distinct keys, the keydir map holds exactly the entries' bindings.
proof fn lemma_index_view_entries(es: Seq<IndexEntry>)
    requires
        keys_distinct(es),
    ensures
        forall|i: int|
            0 <= i < es.len() ==> index_view(es).contains_key((#[trigger] es[i]).key@)
                && index_view(es)[es[i].key@] == es[i].val@,
        forall|k: Seq<char>|
            index_view(es).contains_key(k) ==> exists|i: int|
                0 <= i < es.len() && (#[trigger] es[i]).key@ == k,
    decreases es.len(),
{
    if es.len() == 0 {
    } else {
        let front = es.drop_last();
        assert(keys_distinct(front)) by {
            assert(forall|i: int| 0 <= i < front.len() ==> front[i] == es[i]);
        }
        lemma_index_view_entries(front);
        assert(forall|i: int| 0 <= i < front.len() ==> front[i] == es[i]);
        let last = es.last();
        assert(forall|i: int|
            0 <= i < es.len() - 1 ==> (#[trigger] es[i]).key@ != last.key@);
        assert(forall|k: Seq<char>|
            index_view(es).contains_key(k) ==> index_view(front).contains_key(k) || k
                == last.key@);
    }
}

/// Replacing the entry at `i` by one with the same key updates the keydir
/// map at that key.
proof fn lemma_index_view_update(es: Seq<IndexEntry>, i: int, e: IndexEntry)
    requires
        keys_distinct(es),
        0 <= i < es.len(),
        e.key@ == es[i].key@,
    ensures
        keys_distinct(es.update(i, e)),
        index_view(es.update(i, e)) == index_view(es).insert(e.key@, e.val@),
    decreases es.len(),
{
    let es2 = es.update(i, e);
    assert(keys_distinct(es2)) by {
        assert(forall|j: int| 0 <= j < es.len() && j != i ==> es2[j] == es[j]);
        assert(es2[i] == e);
    }
    if es.len() == 0 {
    } else if i == es.len() - 1 {
        assert(es2.drop_last() =~= es.drop_last());
        assert(es2.last() == e);
        assert(index_view(es2) == index_view(es.drop_last()).insert(e.key@, e.val@));
        assert(index_view(es.drop_last()).insert(es.last().key@, es.last().val@).insert(
            e.key@,
            e.val@,
        ) =~= index_view(es.drop_last()).insert(e.key@, e.val@));
    } else {
        let front = es.drop_last();
        assert(keys_distinct(front)) by {
            assert(forall|j: int| 0 <= j < front.len() ==> front[j] == es[j]);
        }
        assert(front[i] == es[i]);
        lemma_index_view_update(front, i, e);
        assert(es2.drop_last() =~= front.update(i, e));
        assert(es2.last() == es.last());
        assert(es.last().key@ != e.key@) by {
            assert(es[i].key@ != es[es.len() - 1].key@);
        }
        assert(index_view(front).insert(e.key@, e.val@).insert(es.last().key@, es.last().val@)
            =~= index_view(front).insert(es.last().key@, es.last().val@).insert(
            e.key@,
            e.val@,
        ));
    }
}

/// Removing the entry at `i` removes its key from the keydir map.
proof fn lemma_index_view_remove(es: Seq<IndexEntry>, i: int)
    requires
        keys_distinct(es),
        0 <= i < es.len(),
    ensures
        keys_distinct(es.remove(i)),
        index_view(es.remove(i)) == index_view(es).remove(es[i].key@),
    decreases es.len(),
{
    let es2 = es.remove(i);
    assert(keys_distinct(es2)) by {
        assert(forall|j: int| 0 <= j < i ==> es2[j] == es[j]);
        assert(forall|j: int| i <= j < es2.len() ==> es2[j] == es[j + 1]);
    }
    lemma_index_view_entries(es);
    if i == es.len() - 1 {
        assert(es2 =~= es.drop_last());
        let front = es.drop_last();
        assert(keys_distinct(front)) by {
            assert(forall|j: int| 0 <= j < front.len() ==> front[j] == es[j]);
        }
        lemma_index_view_entries(front);
        assert(!index_view(front).contains_key(es[i].key@)) by {
            if index_view(front).contains_key(es[i].key@) {
                let j = choose|j: int|
                    0 <= j < front.len() && (#[trigger] front[j]).key@ == es[i].key@;
                assert(es[j].key@ == es[i].key@);
            }
        }
        assert(index_view(es).remove(es[i].key@) =~= index_view(front));
    } else {
        let front = es.drop_last();
        assert(keys_distinct(front)) by {
            assert(forall|j: int| 0 <= j < front.len() ==> front[j] == es[j]);
        }
        assert(front[i] == es[i]);
        lemma_index_view_remove(front, i);
        assert(es2.drop_last() =~= front.remove(i));
        assert(es2.last() == es.last());
        assert(es.last().key@ != es[i].key@) by {
            assert(es[i].key@ != es[es.len() - 1].key@);
        }
        assert(index_view(front).remove(es[i].key@).insert(es.last().key@, es.last().val@)
            =~= index_view(front).insert(es.last().key@, es.last().val@).remove(es[i].key@));
    }
}

/// Appending an entry with a fresh key inserts its binding.
proof fn lemma_index_view_push(es: Seq<IndexEntry>, e: IndexEntry)
    requires
        keys_distinct(es),
        forall|i: int| 0 <= i < es.len() ==> (#[trigger] es[i]).key@ != e.key@,
    ensures
        keys_distinct(es.push(e)),
        index_view(es.push(e)) == index_view(es).insert(e.key@, e.val@),
{
    let es2 = es.push(e);
    assert(keys_distinct(es2)) by {
        assert(forall|i: int| 0 <= i < es.len() ==> es2[i] == es[i]);
        assert(es2[es.len() as int] == e);
    }
    assert(es2.drop_last() =~= es);
    assert(es2.last() == e);
}

// ============================================================================
// Directory-map facts
// ============================================================================

/// With distinct generation numbers, the directory map holds exactly the
/// given files.
proof fn lemma_files_disk_entries(fs: Seq<(u64, Seq<char>)>)
    requires
        forall|i: int, j: int| 0 <= i < j < fs.len() ==> (#[trigger] fs[i]).0 != (#[trigger] fs[j]).0,
    ensures
        forall|i: int|
            0 <= i < fs.len() ==> files_disk(fs).dom().contains((#[trigger] fs[i]).0)
                && files_disk(fs)[fs[i].0] == fs[i].1,
        forall|g: u64|
            files_disk(fs).dom().contains(g) ==> exists|i: int|
                0 <= i < fs.len() && (#[trigger] fs[i]).0 == g,
    decreases fs.len(),
{
    if fs.len() == 0 {
    } else {
        let front = fs.drop_last();
        assert(forall|i: int| 0 <= i < front.len() ==> front[i] == fs[i]);
        lemma_files_disk_entries(front);
        assert(forall|g: u64|
            files_disk(fs).dom().contains(g) ==> files_disk(front).dom().contains(g) || g
                == fs.last().0);
    }
}

/// Replacing the file at `i` by one with the same generation updates the
/// directory map at that generation.
proof fn lemma_files_disk_update(fs: Seq<(u64, Seq<char>)>, i: int, p: (u64, Seq<char>))
    requires
        forall|a: int, b: int| 0 <= a < b < fs.len() ==> (#[trigger] fs[a]).0 != (#[trigger] fs[b]).0,
        0 <= i < fs.len(),
        p.0 == fs[i].0,
    ensures
        files_disk(fs.update(i, p)) == files_disk(fs).insert(p.0, p.1),
    decreases fs.len(),
{
    let fs2 = fs.update(i, p);
    if i == fs.len() - 1 {
        assert(fs2.drop_last() =~= fs.drop_last());
        assert(fs2.last() == p);
        assert(files_disk(fs.drop_last()).insert(fs.last().0, fs.last().1).insert(p.0, p.1)
            =~= files_disk(fs.drop_last()).insert(p.0, p.1));
    } else {
        let front = fs.drop_last();
        assert(forall|a: int| 0 <= a < front.len() ==> front[a] == fs[a]);
        lemma_files_disk_update(front, i, p);
        assert(fs2.drop_last() =~= front.update(i, p));
        assert(fs2.last() == fs.last());
        assert(fs.last().0 != p.0) by {
            assert(fs[i].0 != fs[fs.len() - 1].0);
        }
        assert(files_disk(front).insert(p.0, p.1).insert(fs.last().0, fs.last().1)
            =~= files_disk(front).insert(fs.last().0, fs.last().1).insert(p.0, p.1));
    }
}

/// Removing the file at `i` removes its generation from the directory map.
proof fn lemma_files_disk_remove(fs: Seq<(u64, Seq<char>)>, i: int)
    requires
        forall|a: int, b: int| 0 <= a < b < fs.len() ==> (#[trigger] fs[a]).0 != (#[trigger] fs[b]).0,
        0 <= i < fs.len(),
    ensures
        files_disk(fs.remove(i)) == files_disk(fs).remove(fs[i].0),
    decreases fs.len(),
{
    let fs2 = fs.remove(i);
    lemma_files_disk_entries(fs);
    if i == fs.len() - 1 {
        assert(fs2 =~= fs.drop_last());
        let front = fs.drop_last();
        assert(forall|a: int| 0 <= a < front.len() ==> front[a] == fs[a]);
        lemma_files_disk_entries(front);
        assert(!files_disk(front).dom().contains(fs[i].0)) by {
            if files_disk(front).dom().contains(fs[i].0) {
                let j = choose|j: int|
                    0 <= j < front.len() && (#[trigger] front[j]).0 == fs[i].0;
                assert(fs[j].0 == fs[i].0);
            }
        }
        assert(files_disk(fs).remove(fs[i].0) =~= files_disk(front));
    } else {
        let front = fs.drop_last();
        assert(forall|a: int| 0 <= a < front.len() ==> front[a] == fs[a]);
        lemma_files_disk_remove(front, i);
        assert(fs2.drop_last() =~= front.remove(i));
        assert(fs2.last() == fs.last());
        assert(fs.last().0 != fs[i].0) by {
            assert(fs[i].0 != fs[fs.len() - 1].0);
        }
        assert(files_disk(front).remove(fs[i].0).insert(fs.last().0, fs.last().1)
            =~= files_disk(front).insert(fs.last().0, fs.last().1).remove(fs[i].0));
    }
}

// ============================================================================
// Small executable helpers
// ============================================================================

/// Copy the characters in `[lo, hi)` out of `data`.
fn copy_range(data: &Vec<char>, lo: usize, hi: usize) -> (r: Vec<char>)
    requires
        lo <= hi <= data@.len(),
    ensures
        r@ == data@.subrange(lo as int, hi as int),
{
    let mut r: Vec<char> = Vec::new();
    let mut i: usize = lo;
    while i < hi
        invariant
            lo <= i <= hi <= data@.len(),
            r@ == data@.subrange(lo as int, i as int),
        decreases hi - i,
    {
        r.push(data[i]);
        proof {
            assert(r@ =~= data@.subrange(lo as int, i as int + 1));
        }
        i = i + 1;
    }
    r
}

/// Saturating addition: the counter of reclaimable characters never wraps.
fn sat_add(a: u64, b: u64) -> (r: u64)
    ensures
        r as int == if a as int + b as int <= u64::MAX as int {
            a as int + b as int
        } else {
            u64::MAX as int
        },
{
    if a > u64::MAX - b {
        u64::MAX
    } else {
        a + b
    }
}

/// Find the keydir entry for a key, if any.
fn index_find(es: &Vec<IndexEntry>, key: &Vec<char>) -> (r: Option<usize>)
    ensures
        match r {
            Some(i) => i < es@.len() && es@[i as int].key@ == key@,
            None => forall|i: int| 0 <= i < es@.len() ==> (#[trigger] es@[i]).key@ != key@,
        },
{
    let mut i: usize = 0;
    while i < es.len()
        invariant
            i <= es@.len(),
            forall|j: int| 0 <= j < i ==> (#[trigger] es@[j]).key@ != key@,
        decreases es@.len() - i,
    {
        if chars_eq(&es[i].key, key) {
            return Some(i);
        }
        i = i + 1;
    }
    None
}

/// Find the log holding a generation, if any.
fn find_log(logs: &Vec<LogFile>, gen: u64) -> (r: Option<usize>)
    ensures
        match r {
            Some(i) => i < logs@.len() && logs@[i as int].gen == gen,
            None => forall|i: int| 0 <= i < logs@.len() ==> (#[trigger] logs@[i]).gen != gen,
        },
{
    let mut i: usize = 0;
    while i < logs.len()
        invariant
            i <= logs@.len(),
            forall|j: int| 0 <= j < i ==> (#[trigger] logs@[j]).gen != gen,
        decreases logs@.len() - i,
    {
        if logs[i].gen == gen {
            return Some(i);
        }
        i = i + 1;
    }
    None
}

/// Entries backed by some logs are backed by any extension of those logs.
proof fn lemma_entries_ok_extend(es: Seq<IndexEntry>, logs: Seq<LogFile>, l2: Seq<LogFile>)
    requires
        entries_ok(es, logs),
        logs.len() <= l2.len(),
        forall|i: int| 0 <= i < logs.len() ==> l2[i] == logs[i],
    ensures
        entries_ok(es, l2),
{
    assert forall|t: int| 0 <= t < es.len() implies entry_ok(#[trigger] es[t], l2) by {
        let i = choose|i: int|
            0 <= i < logs.len() && (#[trigger] logs[i]).gen == es[t].cp.gen && es[t].cp.pos
                + es[t].cp.len <= logs[i].data@.len() && logs[i].data@.subrange(
                es[t].cp.pos as int,
                es[t].cp.pos as int + es[t].cp.len as int,
            ) == enc_cmd(CmdModel::Put(es[t].key@, es[t].val@));
        assert(l2[i] == logs[i]);
    }
}

/// A backed keydir entry's recorded length is the length of the `Set`
/// record it references.
proof fn lemma_entry_len(e: IndexEntry, logs: Seq<LogFile>)
    requires
        entry_ok(e, logs),
    ensures
        e.cp.len as int == enc_cmd(CmdModel::Put(e.key@, e.val@)).len(),
{
    let i = choose|i: int|
        0 <= i < logs.len() && (#[trigger] logs[i]).gen == e.cp.gen && e.cp.pos + e.cp.len
            <= logs[i].data@.len() && logs[i].data@.subrange(
            e.cp.pos as int,
            e.cp.pos as int + e.cp.len as int,
        ) == enc_cmd(CmdModel::Put(e.key@, e.val@));
    assert(logs[i].data@.subrange(e.cp.pos as int, e.cp.pos as int + e.cp.len as int).len()
        == e.cp.len as int);
}

// ============================================================================
// Replay of one generation file
// ============================================================================

/// Replay one generation file into the keydir: stream its records in order,
/// letting each shadow what came before, and account the shadowed and
/// removed record lengths as reclaimable. The file's text becomes the
/// store's copy of that generation. Fails if the text is not a well-formed
/// record log.
#[verifier::rlimit(60)]
fn load(
    gen: u64,
    data: Vec<char>,
    logs: &mut Vec<LogFile>,
    index: &mut Vec<IndexEntry>,
    uncompacted: &mut u64,
) -> (r: Result<(), KvsError>)
    requires
        logs_wf(old(logs)@),
        forall|i: int| 0 <= i < old(logs)@.len() ==> (#[trigger] old(logs)@[i]).gen < gen,
        keys_distinct(old(index)@),
        entries_ok(old(index)@, old(logs)@),
        index_view(old(index)@) == replay(logs_records(old(logs)@)),
    ensures
        match r {
            Ok(()) => {
                &&& p_records(data@) is Some
                &&& final(logs)@ == old(logs)@.push((LogFile { gen: gen, data: data }))
                &&& logs_wf(final(logs)@)
                &&& keys_distinct(final(index)@)
                &&& entries_ok(final(index)@, final(logs)@)
                &&& index_view(final(index)@) == replay(logs_records(final(logs)@))
                &&& p_records(data@) matches Some(frs) && *final(uncompacted) as int
                    == reclaim_on(
                    *old(uncompacted) as int,
                    index_view(old(index)@),
                    frs,
                )
            },
            Err(e) => p_records(data@) is None && e is Serde,
        },
{
    let ghost vlog = LogFile { gen: gen, data: data };
    let ghost vlogs = old(logs)@.push(vlog);
    proof {
        lemma_entries_ok_extend(old(index)@, old(logs)@, vlogs);
    }
    let mut pos: usize = 0;
    let ghost mut rs: Seq<CmdModel> = Seq::empty();
    let ghost u0 = *uncompacted as int;
    let ghost m0 = index_view(old(index)@);
    proof {
        assert(data@.subrange(0, 0) =~= Seq::<char>::empty());
        assert(data@.skip(0) =~= data@);
        assert(logs_records(old(logs)@) + rs =~= logs_records(old(logs)@));
    }
    while pos < data.len()
        invariant
            pos <= data@.len(),
            encodes_all(rs) == data@.subrange(0, pos as int),
            match p_records(data@.skip(pos as int)) {
                Some(t) => p_records(data@) == Some(rs + t),
                None => p_records(data@) is None,
            },
            keys_distinct(index@),
            entries_ok(index@, vlogs),
            index_view(index@) == replay(logs_records(old(logs)@) + rs),
            logs@ == old(logs)@,
            vlog == (LogFile { gen: gen, data: data }),
            vlogs == old(logs)@.push(vlog),
            u0 == *old(uncompacted) as int,
            m0 == index_view(old(index)@),
            m0 == replay(logs_records(old(logs)@)),
            *uncompacted as int == reclaim_on(u0, m0, rs),
        decreases data@.len() - pos,
    {
        let ghost s_here = data@.skip(pos as int);
        let ghost u_before = *uncompacted as int;
        let ghost iv_before = index_view(index@);
        proof {
            lemma_replay_extend(logs_records(old(logs)@), rs);
            assert(replay_on(m0, rs) == iv_before);
        }
        match decode_cmd(&data, pos) {
            Decoded::Done(c, end) => {
                let ghost cv = c@;
                let ghost n = end as int - pos as int;
                proof {
                    lemma_p_cmd_sound(s_here);
                    assert(s_here.subrange(0, n) == enc_cmd(cv));
                    assert(s_here.skip(n) =~= data@.skip(end as int));
                    // the consumed range extends the encoded prefix
                    assert(data@.subrange(0, end as int) =~= data@.subrange(0, pos as int)
                        + s_here.subrange(0, n));
                    assert(rs.push(cv) =~= rs + seq![cv]);
                    lemma_encodes_all_concat(rs, seq![cv]);
                    lemma_encodes_one(cv);
                    assert(encodes_all(rs.push(cv)) == data@.subrange(0, end as int));
                    // the unparsed tail chains through this record
                    assert(match p_records(data@.skip(end as int)) {
                        Some(t) => p_records(data@) == Some(rs.push(cv) + t),
                        None => p_records(data@) is None,
                    }) by {
                        assert(p_records(s_here) == match p_records(s_here.skip(n)) {
                            Some(t2) => Some(seq![cv] + t2),
                            None => None::<Seq<CmdModel>>,
                        });
                        match p_records(data@.skip(end as int)) {
                            Some(t) => {
                                assert(rs + (seq![cv] + t) =~= rs.push(cv) + t);
                            },
                            None => {},
                        }
                    }
                    lemma_replay_push(logs_records(old(logs)@) + rs, cv);
                    assert((logs_records(old(logs)@) + rs).push(cv) =~= logs_records(
                        old(logs)@,
                    ) + rs.push(cv));
                }
                let len64: u64 = (end - pos) as u64;
                match c {
                    Cmd::Put(k, v) => {
                        let ghost kv = k@;
                        let ghost vv = v@;
                        let cp = CommandPos { gen: gen, pos: pos as u64, len: len64 };
                        let entry = IndexEntry { key: k, cp: cp, val: Ghost(vv) };
                        proof {
                            // the new entry is backed by this generation's text
                            assert(vlogs[vlogs.len() - 1] == vlog);
                            assert(vlog.data@.subrange(
                                cp.pos as int,
                                cp.pos as int + cp.len as int,
                            ) == enc_cmd(CmdModel::Put(kv, vv)));
                            assert(entry_ok(entry, vlogs));
                        }
                        match index_find(index, &entry.key) {
                            Some(i) => {
                                proof {
                                    lemma_index_view_entries(index@);
                                    lemma_entry_len(index@[i as int], vlogs);
                                    assert(iv_before.contains_key(kv));
                                    assert(iv_before[kv] == index@[i as int].val@);
                                }
                                *uncompacted = sat_add(*uncompacted, index[i].cp.len);
                                proof {
                                    assert(*uncompacted as int == next_reclaim(
                                        u_before,
                                        iv_before,
                                        cv,
                                    ));
                                    lemma_index_view_update(index@, i as int, entry);
                                }
                                index.set(i, entry);
                            },
                            None => {
                                proof {
                                    lemma_index_view_entries(index@);
                                    assert(!iv_before.contains_key(kv)) by {
                                        if iv_before.contains_key(kv) {
                                            let t = choose|t: int|
                                                0 <= t < index@.len() && (
                                                #[trigger] index@[t]).key@ == kv;
                                        }
                                    }
                                    assert(*uncompacted as int == next_reclaim(
                                        u_before,
                                        iv_before,
                                        cv,
                                    ));
                                    lemma_index_view_push(index@, entry);
                                }
                                index.push(entry);
                            },
                        }
                    },
                    Cmd::Rm(k) => {
                        let ghost u_mid: int;
                        match index_find(index, &k) {
                            Some(i) => {
                                proof {
                                    lemma_index_view_entries(index@);
                                    lemma_entry_len(index@[i as int], vlogs);
                                    assert(iv_before.contains_key(k@));
                                    assert(iv_before[k@] == index@[i as int].val@);
                                }
                                *uncompacted = sat_add(*uncompacted, index[i].cp.len);
                                proof {
                                    u_mid = *uncompacted as int;
                                    assert(u_mid == sat64(
                                        u_before + enc_cmd(
                                            CmdModel::Put(k@, iv_before[k@]),
                                        ).len(),
                                    ));
                                    lemma_index_view_remove(index@, i as int);
                                }
                                index.remove(i);
                            },
                            None => {
                                proof {
                                    lemma_index_view_entries(index@);
                                    assert(!iv_before.contains_key(k@)) by {
                                        if iv_before.contains_key(k@) {
                                            let t = choose|t: int|
                                                0 <= t < index@.len() && (#[trigger] index@[t]).key@
                                                    == k@;
                                        }
                                    }
                                    u_mid = *uncompacted as int;
                                    assert(u_mid == u_before);
                                    assert(index_view(index@) =~= index_view(index@).remove(
                                        k@,
                                    ));
                                }
                            },
                        }
                        *uncompacted = sat_add(*uncompacted, len64);
                        proof {
                            assert(len64 as int == enc_cmd(cv).len());
                            assert(*uncompacted as int == sat64(u_mid + enc_cmd(cv).len()));
                            assert(*uncompacted as int == next_reclaim(u_before, iv_before, cv));
                        }
                    },
                }
                proof {
                    let rs_old = rs;
                    rs = rs.push(cv);
                    assert(rs.drop_last() =~= rs_old);
                    assert(rs.last() == cv);
                    assert(reclaim_on(u0, m0, rs) == next_reclaim(
                        reclaim_on(u0, m0, rs_old),
                        replay_on(m0, rs_old),
                        cv,
                    ));
                }
                pos = end;
            },
            Decoded::Incomplete => {
                proof {
                    assert(s_here.len() != 0);
                }
                return Err(KvsError::Serde("malformed or truncated log record".to_owned()));
            },
            Decoded::Malformed => {
                proof {
                    assert(s_here.len() != 0);
                }
                return Err(KvsError::Serde("malformed or truncated log record".to_owned()));
            },
        }
    }
    proof {
        assert(data@.skip(pos as int) =~= Seq::<char>::empty());
        assert(p_records(data@) == Some(rs + Seq::<CmdModel>::empty()));
        assert(rs + Seq::<CmdModel>::empty() =~= rs);
    }
    let lf = LogFile { gen: gen, data: data };
    proof {
        assert(lf == vlog);
        assert(lf.wf());
        assert(lf.records() == rs);
    }
    logs.push(lf);
    proof {
        assert(logs@ == vlogs);
        assert(logs_wf(logs@)) by {
            assert(forall|i: int|
                0 <= i < old(logs)@.len() ==> vlogs[i] == old(logs)@[i]);
            assert(vlogs[vlogs.len() - 1] == vlog);
        }
        assert(logs_records(logs@) == logs_records(old(logs)@) + rs) by {
            assert(vlogs.drop_last() =~= old(logs)@);
            assert(vlogs.last() == vlog);
        }
    }
    Ok(())
}

/// A malformed file keeps the whole directory malformed, whatever follows.
proof fn lemma_files_records_none(a: Seq<(u64, Seq<char>)>, b: Seq<(u64, Seq<char>)>)
    requires
        files_records(a) is None,
    ensures
        files_records(a + b) is None,
    decreases b.len(),
{
    if b.len() == 0 {
        assert(a + b =~= a);
    } else {
        lemma_files_records_none(a, b.drop_last());
        assert((a + b).drop_last() =~= a + b.drop_last());
    }
}

/// The generation a fresh store opened on the given files appends to: one
/// past the highest existing generation.
pub open spec fn fresh_gen(files: Seq<(u64, Seq<char>)>) -> u64 {
    if files.len() == 0 {
        1u64
    } else {
        (files.last().0 + 1) as u64
    }
}

impl KvStore {
    /// Open a store from the generation files found in its directory, given
    /// in ascending generation order. Replays every file to rebuild the
    /// keydir, then opens a fresh generation for appending (the queued
    /// `Create` action). Fails if a file is not a well-formed record log, or
    /// if no fresh generation number is left.
    pub fn open(files: Vec<(u64, Vec<char>)>) -> (r: Result<KvStore, KvsError>)
        requires
            forall|i: int, j: int|
                0 <= i < j < files@.len() ==> (#[trigger] files@[i]).0 < (#[trigger] files@[j]).0,
        ensures
            match r {
                Ok(s) => {
                    &&& s.wf()
                    &&& files_records(file_views(files@)) matches Some(rs) && s@ == replay(rs)
                        && s.reclaimable() as int == replay_reclaim(rs)
                    &&& s.log_seq() == file_views(files@).push(
                        (fresh_gen(file_views(files@)), Seq::<char>::empty()),
                    )
                    &&& s.gen() == fresh_gen(file_views(files@))
                    &&& s.base_disk() == files_disk(file_views(files@))
                    &&& s.pending() == seq![DiskActionModel::Create(fresh_gen(file_views(files@)))]
                },
                Err(e) => {
                    &&& (files@.len() > 0 && file_views(files@).last().0 == u64::MAX)
                        || files_records(file_views(files@)) is None
                    &&& (files@.len() > 0 && file_views(files@).last().0 == u64::MAX)
                        ==> e is StringError
                    &&& !(files@.len() > 0 && file_views(files@).last().0 == u64::MAX)
                        ==> e is Serde
                },
            },
    {
        let ghost fv = file_views(files@);
        let fresh: u64;
        if files.len() == 0 {
            fresh = 1;
        } else {
            let lastgen = files[files.len() - 1].0;
            assert(lastgen == fv.last().0);
            if lastgen == u64::MAX {
                return Err(
                    KvsError::StringError("no generation number left for a new log".to_owned()),
                );
            }
            fresh = lastgen + 1;
        }
        assert(fresh == fresh_gen(fv));
        assert(forall|i: int| 0 <= i < fv.len() ==> (#[trigger] fv[i]).0 < fresh) by {
            assert(forall|i: int|
                0 <= i < fv.len() - 1 ==> (#[trigger] fv[i]).0 < fv[fv.len() - 1].0);
        }
        let mut rest = files;
        let mut logs: Vec<LogFile> = Vec::new();
        let mut index: Vec<IndexEntry> = Vec::new();
        let mut uncompacted: u64 = 0;
        let ghost mut done: Seq<(u64, Seq<char>)> = Seq::empty();
        proof {
            assert(done + file_views(rest@) =~= fv);
            assert(log_pairs(logs@) =~= done);
            assert(logs_records(logs@) + Seq::<CmdModel>::empty() =~= logs_records(logs@));
        }
        while rest.len() > 0
            invariant
                fv == file_views(files@),
                fv.len() > 0 ==> fv.last().0 != u64::MAX,
                done + file_views(rest@) == fv,
                log_pairs(logs@) == done,
                forall|i: int, j: int|
                    0 <= i < j < fv.len() ==> (#[trigger] fv[i]).0 < (#[trigger] fv[j]).0,
                forall|i: int| 0 <= i < fv.len() ==> (#[trigger] fv[i]).0 < fresh,
                logs_wf(logs@),
                files_records(done) == Some(logs_records(logs@)),
                keys_distinct(index@),
                entries_ok(index@, logs@),
                index_view(index@) == replay(logs_records(logs@)),
                uncompacted as int == replay_reclaim(logs_records(logs@)),
            decreases rest@.len(),
        {
            let ghost files_before = rest@;
            let (g, d) = rest.remove(0);
            let ghost dv = d@;
            proof {
                assert(rest@ =~= files_before.skip(1));
                assert(file_views(rest@) =~= file_views(files_before).skip(1));
                assert((g, dv) == file_views(files_before)[0]);
                assert(done.len() < fv.len());
                assert(fv[done.len() as int] == (g, dv));
                // every held generation precedes this one
                assert(forall|i: int|
                    0 <= i < logs@.len() ==> (#[trigger] logs@[i]).gen < g) by {
                    assert(forall|i: int|
                        0 <= i < done.len() ==> (#[trigger] done[i]) == fv[i]);
                    assert(forall|i: int|
                        0 <= i < logs@.len() ==> (#[trigger] logs@[i]).gen == log_pairs(
                            logs@,
                        )[i].0);
                }
            }
            let ghost logs_before = logs@;
            let ghost unc_before = uncompacted as int;
            let ghost iv_before = index_view(index@);
            match load(g, d, &mut logs, &mut index, &mut uncompacted) {
                Ok(()) => {
                    proof {
                        let rs2 = match p_records(dv) {
                            Some(rr) => rr,
                            None => Seq::empty(),
                        };
                        assert(logs@.last().records() == rs2);
                        assert(logs@.drop_last() =~= logs_before);
                        assert(logs_records(logs@) == logs_records(logs_before) + rs2);
                        // the accounting continues through this file's records
                        let prior = logs_records(logs_before);
                        assert(uncompacted as int == reclaim_on(unc_before, iv_before, rs2));
                        lemma_replay_on_empty(prior);
                        lemma_reclaim_on_concat(0, Map::empty(), prior, rs2);
                        assert(replay_reclaim(prior + rs2) == reclaim_on(
                            replay_reclaim(prior),
                            replay_on(Map::empty(), prior),
                            rs2,
                        ));
                        assert(uncompacted as int == replay_reclaim(logs_records(logs@)));
                        let done2 = done.push((g, dv));
                        assert(done2.drop_last() =~= done);
                        assert(done2.last() == (g, dv));
                        assert(files_records(done2) == Some(logs_records(logs@)));
                        assert(log_pairs(logs@) =~= done2);
                        done = done2;
                        assert(done + file_views(rest@) =~= fv);
                    }
                },
                Err(e) => {
                    proof {
                        let done2 = done.push((g, dv));
                        assert(done2.drop_last() =~= done);
                        assert(files_records(done2) is None);
                        lemma_files_records_none(done2, file_views(rest@));
                        assert(done2 + file_views(rest@) =~= fv);
                        assert(files_records(fv) is None);
                    }
                    return Err(e);
                },
            }
        }
        proof {
            assert(file_views(rest@) =~= Seq::<(u64, Seq<char>)>::empty());
            assert(done + file_views(rest@) =~= done);
            assert(done == fv);
        }
        let ghost logs_before = logs@;
        let fresh_log = LogFile { gen: fresh, data: Vec::new() };
        proof {
            assert(p_records(fresh_log.data@) == Some(Seq::<CmdModel>::empty()));
            assert(fresh_log.records() =~= Seq::<CmdModel>::empty());
        }
        logs.push(fresh_log);
        let mut actions: Vec<DiskAction> = Vec::new();
        actions.push(DiskAction::Create(fresh));
        let store = KvStore {
            logs,
            current_gen: fresh,
            index,
            uncompacted,
            actions,
            disk: Ghost(files_disk(fv)),
        };
        proof {
            assert(store.logs@.drop_last() =~= logs_before);
            assert(store.logs@.last().records() =~= Seq::<CmdModel>::empty());
            assert(logs_records(store.logs@) =~= logs_records(logs_before) + Seq::<
                CmdModel,
            >::empty());
            assert(logs_records(store.logs@) =~= logs_records(logs_before));
            assert(logs_wf(store.logs@)) by {
                assert(forall|i: int|
                    0 <= i < logs_before.len() ==> store.logs@[i] == logs_before[i]);
                assert(forall|i: int|
                    0 <= i < logs_before.len() ==> (#[trigger] logs_before[i]).gen == done[i].0);
            }
            lemma_entries_ok_extend(store.index@, logs_before, store.logs@);
            assert(store.log_seq() =~= fv.push((fresh, Seq::<char>::empty())));
            assert(store.pending() =~= seq![DiskActionModel::Create(fresh)]);
            assert(store.log_seq().drop_last() =~= fv);
            assert(files_disk(store.log_seq()) == files_disk(fv).insert(
                fresh,
                Seq::<char>::empty(),
            ));
            assert(apply_actions(store.disk@, store.pending()) == files_disk(store.log_seq()))
                by {
                assert(store.pending().len() == 1);
                assert(store.pending().drop_last() =~= Seq::<DiskActionModel>::empty());
                assert(store.pending().last() == DiskActionModel::Create(fresh));
                assert(apply_actions(store.disk@, store.pending().drop_last()) == store.disk@);
            }
            assert(store.wf());
        }
        Ok(store)
    }
}

impl KvStore {
    /// Look a key up. Returns the value bound by the latest `Set` record for
    /// the key, read back from the referenced log range, or `None` if the
    /// key is absent. On a coherent store this never fails: the range always
    /// holds a `Set` record.
    pub fn get(&self, key: String) -> (r: Result<Option<String>, KvsError>)
        requires
            self.wf(),
        ensures
            match r {
                Ok(ov) => match ov {
                    Some(v) => self@.contains_key(key@) && v@ == self@[key@],
                    None => !self@.contains_key(key@),
                },
                Err(_) => false,
            },
    {
        let kchars = chars_of(key.as_str());
        match index_find(&self.index, &kchars) {
            None => {
                proof {
                    lemma_index_view_entries(self.index@);
                    assert(!self@.contains_key(key@)) by {
                        if self@.contains_key(key@) {
                            let i = choose|i: int|
                                0 <= i < self.index@.len() && (#[trigger] self.index@[i]).key@
                                    == key@;
                        }
                    }
                }
                Ok(None)
            },
            Some(i) => {
                proof {
                    lemma_index_view_entries(self.index@);
                }
                let e = &self.index[i];
                let cp = e.cp;
                let ghost target = CmdModel::Put(e.key@, e.val@);
                proof {
                    assert(entry_ok(self.index@[i as int], self.logs@));
                }
                match find_log(&self.logs, cp.gen) {
                    Some(j) => {
                        proof {
                            let j2 = choose|j2: int|
                                0 <= j2 < self.logs@.len() && (#[trigger] self.logs@[j2]).gen
                                    == e.cp.gen && e.cp.pos + e.cp.len
                                    <= self.logs@[j2].data@.len() && self.logs@[j2].data@.subrange(
                                    e.cp.pos as int,
                                    e.cp.pos as int + e.cp.len as int,
                                ) == enc_cmd(target);
                            assert(j2 == j as int) by {
                                if j2 < j as int {
                                    assert(self.logs@[j2].gen < self.logs@[j as int].gen);
                                } else if j2 > j as int {
                                    assert(self.logs@[j as int].gen < self.logs@[j2].gen);
                                }
                            }
                        }
                        let dlen = self.logs[j].data.len();
                        proof {
                            assert(e.cp.pos + e.cp.len <= self.logs@[j as int].data@.len());
                            assert(dlen as int == self.logs@[j as int].data@.len());
                        }
                        let lo = cp.pos as usize;
                        let hi = (cp.pos + cp.len) as usize;
                        let slice = copy_range(&self.logs[j].data, lo, hi);
                        proof {
                            lemma_p_cmd_complete(target, Seq::empty());
                            assert(slice@ =~= enc_cmd(target) + Seq::empty());
                            assert(slice@.skip(0) =~= slice@);
                        }
                        match decode_cmd(&slice, 0) {
                            Decoded::Done(c, _end) => {
                                match c {
                                    Cmd::Put(_k2, v2) => {
                                        assert(v2@ == e.val@);
                                        Ok(Some(string_from_chars(&v2)))
                                    },
                                    Cmd::Rm(_) => {
                                        // the range holds a Set record; a coherent
                                        // store never reaches this
                                        assert(false);
                                        Err(KvsError::UnexpectedCommandType)
                                    },
                                }
                            },
                            Decoded::Incomplete => {
                                assert(false);
                                Err(KvsError::UnexpectedCommandType)
                            },
                            Decoded::Malformed => {
                                assert(false);
                                Err(KvsError::UnexpectedCommandType)
                            },
                        }
                    },
                    None => {
                        // the keydir only references live generations
                        assert(false);
                        Err(KvsError::UnexpectedCommandType)
                    },
                }
            },
        }
    }
}

/// Appending one record's encoding to the newest log appends that record to
/// the replayed sequence.
proof fn lemma_append_record(logs: Seq<LogFile>, l2: Seq<LogFile>, c: CmdModel)
    requires
        logs_wf(logs),
        logs.len() >= 1,
        l2.len() == logs.len(),
        forall|i: int| 0 <= i < logs.len() - 1 ==> l2[i] == logs[i],
        l2.last().gen == logs.last().gen,
        l2.last().data@ == logs.last().data@ + enc_cmd(c),
    ensures
        logs_wf(l2),
        logs_records(l2) == logs_records(logs).push(c),
{
    let rs = logs.last().records();
    lemma_p_records_sound(logs.last().data@);
    assert(logs.last().data@ == encodes_all(rs));
    assert(rs.push(c) =~= rs + seq![c]);
    lemma_encodes_all_concat(rs, seq![c]);
    lemma_encodes_one(c);
    assert(l2.last().data@ == encodes_all(rs.push(c)));
    lemma_p_records_complete(rs.push(c));
    assert(l2.last().wf());
    assert(l2.last().records() == rs.push(c));
    assert(logs_wf(l2)) by {
        assert(forall|i: int| 0 <= i < l2.len() - 1 ==> l2[i] == logs[i]);
        assert(l2[l2.len() - 1] == l2.last());
        assert(forall|i: int, j: int|
            0 <= i < j < l2.len() ==> l2[i].gen < l2[j].gen) by {
            assert(forall|i: int|
                0 <= i < logs.len() - 1 ==> (#[trigger] l2[i]).gen == logs[i].gen);
        }
    }
    assert(l2.drop_last() =~= logs.drop_last());
    assert(logs_records(l2) == logs_records(logs.drop_last()) + rs.push(c));
    assert(logs_records(logs.drop_last()) + rs.push(c) =~= (logs_records(logs.drop_last())
        + rs).push(c));
}

/// Entries backed by the logs stay backed when the newest log grows.
proof fn lemma_entries_ok_append(es: Seq<IndexEntry>, logs: Seq<LogFile>, l2: Seq<LogFile>)
    requires
        entries_ok(es, logs),
        logs.len() >= 1,
        l2.len() == logs.len(),
        forall|i: int| 0 <= i < logs.len() - 1 ==> l2[i] == logs[i],
        l2.last().gen == logs.last().gen,
        logs.last().data@.len() <= l2.last().data@.len(),
        l2.last().data@.subrange(0, logs.last().data@.len() as int) == logs.last().data@,
    ensures
        entries_ok(es, l2),
{
    assert forall|t: int| 0 <= t < es.len() implies entry_ok(#[trigger] es[t], l2) by {
        let e = es[t];
        let i = choose|i: int|
            0 <= i < logs.len() && (#[trigger] logs[i]).gen == e.cp.gen && e.cp.pos + e.cp.len
                <= logs[i].data@.len() && logs[i].data@.subrange(
                e.cp.pos as int,
                e.cp.pos as int + e.cp.len as int,
            ) == enc_cmd(CmdModel::Put(e.key@, e.val@));
        if i == logs.len() - 1 {
            assert(l2[i].gen == e.cp.gen);
            assert(l2[i].data@.subrange(e.cp.pos as int, e.cp.pos as int + e.cp.len as int)
                =~= logs[i].data@.subrange(e.cp.pos as int, e.cp.pos as int + e.cp.len as int))
                by {
                assert(forall|k: int|
                    0 <= k < logs[i].data@.len() ==> l2[i].data@[k] == logs[i].data@.subrange(
                        0,
                        logs[i].data@.len() as int,
                    )[k]);
            }
        } else {
            assert(l2[i] == logs[i]);
        }
    }
}

impl KvStore {
    /// Append one encoded record to the newest log, queue the matching
    /// `Append` action, and re-establish the log and directory facts.
    fn append_record(&mut self, cmd: &Cmd)
        requires
            old(self).wf(),
        ensures
            final(self).logs@.len() == old(self).logs@.len(),
            logs_wf(final(self).logs@),
            final(self).logs@.last().gen == old(self).current_gen,
            logs_records(final(self).logs@) == logs_records(old(self).logs@).push(cmd@),
            entries_ok(old(self).index@, final(self).logs@),
            apply_actions(final(self).disk@, final(self).pending()) == files_disk(
                log_pairs(final(self).logs@),
            ),
            final(self).logs@.last().data@ == old(self).logs@.last().data@ + enc_cmd(cmd@),
            final(self).logs@.last().data@.len() >= old(self).logs@.last().data@.len(),
            // only the newest log changed; the rest of the store is untouched
            forall|i: int|
                0 <= i < old(self).logs@.len() - 1 ==> final(self).logs@[i] == old(self).logs@[i],
            final(self).index == old(self).index,
            final(self).current_gen == old(self).current_gen,
            final(self).uncompacted == old(self).uncompacted,
            final(self).disk == old(self).disk,
            final(self).pending() == old(self).pending().push(
                DiskActionModel::Append(old(self).current_gen, enc_cmd(cmd@)),
            ),
    {
        let ghost logs0 = self.logs@;
        let ghost pairs0 = log_pairs(logs0);
        let rec = encode_cmd(cmd);
        let mut last = match self.logs.pop() {
            Some(l) => l,
            None => {
                // a coherent store always holds at least one log
                assert(false);
                LogFile { gen: 0, data: Vec::new() }
            },
        };
        let ghost old_data = last.data@;
        last.data.extend_from_slice(rec.as_slice());
        let gen = last.gen;
        assert(gen == self.current_gen);
        self.logs.push(last);
        proof {
            assert(self.logs@.len() == logs0.len());
            assert(forall|i: int| 0 <= i < logs0.len() - 1 ==> self.logs@[i] == logs0[i]);
            assert(self.logs@.last().data@ == old_data + rec@);
            lemma_append_record(logs0, self.logs@, cmd@);
        }
        self.actions.push(DiskAction::Append(gen, rec));
        proof {
            assert(self.logs@.last().data@.subrange(0, old_data.len() as int) =~= old_data);
            lemma_entries_ok_append(self.index@, logs0, self.logs@);
            // the queued append keeps the directory equation in step
            let pairs2 = log_pairs(self.logs@);
            let g = self.logs@.last().gen;
            assert(forall|a: int, b: int|
                0 <= a < b < pairs0.len() ==> (#[trigger] pairs0[a]).0 != (#[trigger] pairs0[b]).0)
                by {
                assert(forall|i: int|
                    0 <= i < logs0.len() ==> (#[trigger] pairs0[i]).0 == logs0[i].gen);
            }
            lemma_files_disk_entries(pairs0);
            assert(pairs0[pairs0.len() - 1] == (g, old_data));
            assert(files_disk(pairs0).dom().contains(g) && files_disk(pairs0)[g] == old_data);
            lemma_files_disk_update(pairs0, pairs0.len() - 1, (g, old_data + rec@));
            assert(pairs2 =~= pairs0.update(pairs0.len() - 1, (g, old_data + rec@)));
            assert(self.pending() =~= action_models(old(self).actions@).push(
                DiskActionModel::Append(g, rec@),
            ));
            assert(self.pending().drop_last() =~= action_models(old(self).actions@));
            assert(apply_actions(self.disk@, self.pending()) == apply_action(
                files_disk(pairs0),
                DiskActionModel::Append(g, rec@),
            ));
            assert(apply_action(files_disk(pairs0), DiskActionModel::Append(g, rec@))
                == files_disk(pairs0).insert(g, old_data + rec@));
        }
    }

    /// Bind a key to a value. Exactly one `Set` record is appended to the
    /// newest log (with the matching queued `Append`) and the keydir is
    /// pointed at it; if the key was bound before, the shadowed record's
    /// length becomes reclaimable. If that pushes the reclaimable count past
    /// `COMPACTION_THRESHOLD`, the logs are compacted in the same call. The
    /// new binding takes effect in every case; the only possible failure is
    /// running out of generation numbers for compaction, which leaves the
    /// binding in place and compaction for a later write.
    pub fn set(&mut self, key: String, value: String) -> (r: Result<(), KvsError>)
        requires
            old(self).wf(),
        ensures
            final(self).wf(),
            final(self)@ == old(self)@.insert(key@, value@),
            match r {
                Ok(()) => final(self).reclaimable() <= COMPACTION_THRESHOLD,
                Err(e) => old(self).gen() > u64::MAX - 2 && e is StringError,
            },
            old(self).gen() <= u64::MAX - 2 ==> r is Ok,
            ({
                let grown = next_reclaim(
                    old(self).reclaimable() as int,
                    old(self)@,
                    CmdModel::Put(key@, value@),
                );
                &&& (grown <= COMPACTION_THRESHOLD ==> {
                    &&& r is Ok
                    &&& final(self).reclaimable() as int == grown
                    &&& final(self).gen() == old(self).gen()
                    &&& final(self).log_seq().len() == old(self).log_seq().len()
                    &&& (forall|i: int|
                        0 <= i < old(self).log_seq().len() - 1 ==> final(self).log_seq()[i]
                            == old(self).log_seq()[i])
                    &&& final(self).log_seq().last() == (
                        old(self).gen(),
                        old(self).log_seq().last().1 + enc_cmd(CmdModel::Put(key@, value@)),
                    )
                    &&& final(self).pending() == old(self).pending().push(
                        DiskActionModel::Append(
                            old(self).gen(),
                            enc_cmd(CmdModel::Put(key@, value@)),
                        ),
                    )
                })
                &&& ((grown > COMPACTION_THRESHOLD && old(self).gen() <= u64::MAX - 2) ==> {
                    &&& r is Ok
                    &&& final(self).reclaimable() == 0
                    &&& final(self).gen() == old(self).gen() + 2
                    &&& final(self).log_seq().len() == 2
                    &&& final(self).log_seq()[0].0 == old(self).gen() + 1
                    &&& final(self).log_seq()[1] == (
                        (old(self).gen() + 2) as u64,
                        Seq::<char>::empty(),
                    )
                    &&& compacted_form(final(self).log_seq()[0].1, final(self)@)
                })
                &&& ((grown > COMPACTION_THRESHOLD && old(self).gen() > u64::MAX - 2) ==> {
                    &&& r is Err
                    &&& final(self).reclaimable() as int == grown
                    &&& final(self).gen() == old(self).gen()
                })
            }),
    {
        let kchars = chars_of(key.as_str());
        let vchars = chars_of(value.as_str());
        let cmd = Cmd::Put(kchars, vchars);
        let ghost cv = cmd@;
        let ghost logs0 = self.logs@;
        let start = {
            let lastref = &self.logs[self.logs.len() - 1];
            lastref.data.len()
        };
        self.append_record(&cmd);
        proof {
            lemma_replay_push(logs_records(logs0), cv);
        }
        let cp = CommandPos {
            gen: self.current_gen,
            pos: start as u64,
            len: (self.logs[self.logs.len() - 1].data.len() - start) as u64,
        };
        proof {
            // the appended range holds exactly the new record
            let ndata = self.logs@.last().data@;
            assert(ndata.subrange(start as int, ndata.len() as int) =~= enc_cmd(cv));
        }
        let ghost grown = next_reclaim(old(self).reclaimable() as int, old(self)@, cv);
        match cmd {
            Cmd::Put(k, v) => {
                let ghost vv = v@;
                let entry = IndexEntry { key: k, cp: cp, val: Ghost(vv) };
                proof {
                    assert(self.logs@[self.logs@.len() - 1] == self.logs@.last());
                    assert(entry_ok(entry, self.logs@));
                }
                match index_find(&self.index, &entry.key) {
                    Some(i) => {
                        let oldlen = self.index[i].cp.len;
                        proof {
                            // the displaced record's length is what the
                            // accounting step charges
                            lemma_index_view_entries(self.index@);
                            lemma_entry_len(self.index@[i as int], old(self).logs@);
                            assert(old(self)@.contains_key(key@));
                            assert(old(self)@[key@] == self.index@[i as int].val@);
                            lemma_index_view_update(self.index@, i as int, entry);
                        }
                        self.index.set(i, entry);
                        self.uncompacted = sat_add(self.uncompacted, oldlen);
                        proof {
                            assert(self.uncompacted as int == grown);
                        }
                    },
                    None => {
                        proof {
                            lemma_index_view_entries(self.index@);
                            assert(!old(self)@.contains_key(key@)) by {
                                if old(self)@.contains_key(key@) {
                                    let t = choose|t: int|
                                        0 <= t < self.index@.len() && (
                                        #[trigger] self.index@[t]).key@ == key@;
                                }
                            }
                            assert(self.uncompacted as int == grown);
                            lemma_index_view_push(self.index@, entry);
                        }
                        self.index.push(entry);
                    },
                }
            },
            Cmd::Rm(_) => {
                // `cmd` is a `Set` record by construction
                proof {
                    assert(false);
                }
            },
        }
        proof {
            // the counter stays a conservative bound on the replay accounting
            let records0 = logs_records(logs0);
            let rr = replay_reclaim(records0);
            lemma_replay_on_empty(records0);
            lemma_reclaim_on_bounds(0, Map::empty(), records0);
            assert(logs_records(self.logs@).drop_last() =~= records0);
            assert(logs_records(self.logs@).last() == cv);
            assert(replay_reclaim(logs_records(self.logs@)) == next_reclaim(
                rr,
                replay(records0),
                cv,
            ));
            lemma_next_reclaim_mono(old(self).uncompacted as int, rr, replay(records0), cv);
            assert(self.uncompacted as int <= replay_reclaim(logs_records(self.logs@)));
        }
        assert(self.wf());
        assert(self@ == old(self)@.insert(key@, value@));
        proof {
            // the newest generation file grew by exactly this record
            assert(forall|t: int|
                0 <= t < logs0.len() ==> (#[trigger] log_pairs(logs0)[t]) == (
                logs0[t].gen,
                logs0[t].data@,
            ));
            assert(forall|t: int|
                0 <= t < self.logs@.len() ==> (#[trigger] log_pairs(self.logs@)[t]) == (
                self.logs@[t].gen,
                self.logs@[t].data@,
            ));
            assert(self.log_seq().last() == (
                old(self).gen(),
                old(self).log_seq().last().1 + enc_cmd(cv),
            ));
            assert(forall|i: int|
                0 <= i < old(self).log_seq().len() - 1 ==> self.log_seq()[i] == old(
                    self,
                ).log_seq()[i]);
        }
        if self.uncompacted > COMPACTION_THRESHOLD {
            if self.current_gen > u64::MAX - 2 {
                return Err(
                    KvsError::StringError("no generation number left for compaction".to_owned()),
                );
            }
            self.compact();
        }
        Ok(())
    }

    /// Remove a key. If the key is absent, fails with `KeyNotFound` and
    /// leaves the store exactly as it was — in particular, nothing is
    /// appended to any log. Otherwise exactly one `Remove` record is
    /// appended to the newest log (with the matching queued `Append`), the
    /// key leaves the keydir, and the shadowed `Set` record's length becomes
    /// reclaimable. The `Remove` record's own length becomes reclaimable
    /// only at the next replay, as the accounting rule states.
    pub fn remove(&mut self, key: String) -> (r: Result<(), KvsError>)
        requires
            old(self).wf(),
        ensures
            final(self).wf(),
            match r {
                Ok(()) => {
                    &&& old(self)@.contains_key(key@)
                    &&& final(self)@ == old(self)@.remove(key@)
                    &&& final(self).reclaimable() as int == sat64(
                        old(self).reclaimable() as int + enc_cmd(
                            CmdModel::Put(key@, old(self)@[key@]),
                        ).len(),
                    )
                    &&& final(self).gen() == old(self).gen()
                    &&& final(self).log_seq().len() == old(self).log_seq().len()
                    &&& (forall|i: int|
                        0 <= i < old(self).log_seq().len() - 1 ==> final(self).log_seq()[i]
                            == old(self).log_seq()[i])
                    &&& final(self).log_seq().last() == (
                        old(self).gen(),
                        old(self).log_seq().last().1 + enc_cmd(CmdModel::Rm(key@)),
                    )
                    &&& final(self).pending() == old(self).pending().push(
                        DiskActionModel::Append(old(self).gen(), enc_cmd(CmdModel::Rm(key@))),
                    )
                },
                Err(e) => !old(self)@.contains_key(key@) && e is KeyNotFound && *final(self)
                    == *old(self),
            },
    {
        let kchars = chars_of(key.as_str());
        match index_find(&self.index, &kchars) {
            None => {
                proof {
                    lemma_index_view_entries(self.index@);
                    assert(!self@.contains_key(key@)) by {
                        if self@.contains_key(key@) {
                            let i = choose|i: int|
                                0 <= i < self.index@.len() && (#[trigger] self.index@[i]).key@
                                    == key@;
                        }
                    }
                }
                Err(KvsError::KeyNotFound)
            },
            Some(i) => {
                proof {
                    lemma_index_view_entries(self.index@);
                    lemma_entry_len(self.index@[i as int], self.logs@);
                    assert(self@.contains_key(key@));
                    assert(self@[key@] == self.index@[i as int].val@);
                }
                let oldlen = self.index[i].cp.len;
                let cmd = Cmd::Rm(kchars);
                let ghost cv = cmd@;
                let ghost logs0 = self.logs@;
                self.append_record(&cmd);
                proof {
                    lemma_replay_push(logs_records(logs0), cv);
                    lemma_index_view_remove(self.index@, i as int);
                    // the newest generation file grew by exactly this record
                    assert(forall|t: int|
                        0 <= t < logs0.len() ==> (#[trigger] log_pairs(logs0)[t]) == (
                        logs0[t].gen,
                        logs0[t].data@,
                    ));
                    assert(forall|t: int|
                        0 <= t < self.logs@.len() ==> (#[trigger] log_pairs(self.logs@)[t]) == (
                        self.logs@[t].gen,
                        self.logs@[t].data@,
                    ));
                    assert(self.log_seq().last() == (
                        old(self).gen(),
                        old(self).log_seq().last().1 + enc_cmd(cv),
                    ));
                }
                self.index.remove(i);
                self.uncompacted = sat_add(self.uncompacted, oldlen);
                proof {
                    // the counter stays a conservative bound on the replay
                    // accounting, which additionally charges the record itself
                    let records0 = logs_records(logs0);
                    let rr = replay_reclaim(records0);
                    lemma_replay_on_empty(records0);
                    lemma_reclaim_on_bounds(0, Map::empty(), records0);
                    assert(logs_records(self.logs@).drop_last() =~= records0);
                    assert(logs_records(self.logs@).last() == cv);
                    assert(replay_reclaim(logs_records(self.logs@)) == next_reclaim(
                        rr,
                        replay(records0),
                        cv,
                    ));
                    let dlen = enc_cmd(CmdModel::Put(key@, old(self)@[key@])).len() as int;
                    assert(sat64(old(self).uncompacted as int + dlen) <= sat64(rr + dlen));
                    assert(sat64(rr + dlen) <= next_reclaim(rr, replay(records0), cv));
                    assert(self.uncompacted as int <= replay_reclaim(logs_records(self.logs@)));
                }
                assert(self.wf());
                Ok(())
            },
        }
    }
}

/// Applying one more action applies it to the result so far.
proof fn lemma_apply_actions_push(d: Map<u64, Seq<char>>, s: Seq<DiskActionModel>, a: DiskActionModel)
    ensures
        apply_actions(d, s.push(a)) == apply_action(apply_actions(d, s), a),
{
    assert(s.push(a).drop_last() =~= s);
    assert(s.push(a).last() == a);
}

/// The key a record names.
pub open spec fn key_of(c: CmdModel) -> Seq<char> {
    match c {
        CmdModel::Put(k, _) => k,
        CmdModel::Rm(k) => k,
    }
}

/// The text of a freshly compacted generation: one `Set` record per live
/// binding of `m`, back to back, each key at most once — only live records,
/// no `Remove` records, nothing shadowed.
pub open spec fn compacted_form(s: Seq<char>, m: Map<Seq<char>, Seq<char>>) -> bool {
    exists|rs: Seq<CmdModel>|
        {
            &&& s == encodes_all(rs)
            &&& (forall|t: int| 0 <= t < rs.len() ==> (#[trigger] rs[t]) is Put)
            &&& (forall|t1: int, t2: int|
                0 <= t1 < t2 < rs.len() ==> key_of(#[trigger] rs[t1]) != key_of(
                    #[trigger] rs[t2],
                ))
            &&& replay(rs) == m
        }
}

/// A keydir's worth of `Set` records, one per entry, is a compacted image
/// of the keydir's map.
proof fn lemma_compacted_form(es: Seq<IndexEntry>, rs: Seq<CmdModel>, s: Seq<char>)
    requires
        s == encodes_all(rs),
        rs.len() == es.len(),
        keys_distinct(es),
        forall|t: int|
            0 <= t < rs.len() ==> rs[t] == CmdModel::Put((#[trigger] es[t]).key@, es[t].val@),
        replay(rs) == index_view(es),
    ensures
        compacted_form(s, index_view(es)),
{
    assert forall|t: int| 0 <= t < rs.len() implies (#[trigger] rs[t]) is Put by {
        assert(rs[t] == CmdModel::Put(es[t].key@, es[t].val@));
    }
    assert forall|t: int|
        0 <= t < rs.len() implies key_of(#[trigger] rs[t]) == es[t].key@ by {
        assert(rs[t] == CmdModel::Put(es[t].key@, es[t].val@));
    }
    assert(forall|t1: int, t2: int|
        0 <= t1 < t2 < rs.len() ==> key_of(#[trigger] rs[t1]) != key_of(#[trigger] rs[t2])) by {
        assert(forall|t1: int, t2: int|
            0 <= t1 < t2 < es.len() ==> (#[trigger] es[t1]).key@ != (#[trigger] es[t2]).key@);
    }
}

/// Keydirs with the same keys and values in the same order represent the
/// same map.
proof fn lemma_index_view_congruent(a: Seq<IndexEntry>, b: Seq<IndexEntry>)
    requires
        a.len() == b.len(),
        forall|t: int|
            0 <= t < a.len() ==> (#[trigger] a[t]).key@ == b[t].key@ && a[t].val@ == b[t].val@,
    ensures
        index_view(a) == index_view(b),
    decreases a.len(),
{
    if a.len() == 0 {
        assert(index_view(a) =~= index_view(b));
    } else {
        assert(forall|t: int|
            0 <= t < a.len() - 1 ==> a.drop_last()[t] == a[t] && b.drop_last()[t] == b[t]);
        lemma_index_view_congruent(a.drop_last(), b.drop_last());
        assert(a.last() == a[a.len() - 1] && b.last() == b[b.len() - 1]);
    }
}

/// Replaying one `Set` record per keydir entry, in order, rebuilds exactly
/// the keydir's map: compaction preserves the store's meaning.
proof fn lemma_replay_of_puts(es: Seq<IndexEntry>, rs: Seq<CmdModel>)
    requires
        es.len() == rs.len(),
        forall|t: int|
            0 <= t < es.len() ==> rs[t] == CmdModel::Put((#[trigger] es[t]).key@, es[t].val@),
    ensures
        replay(rs) == index_view(es),
    decreases es.len(),
{
    if es.len() == 0 {
        assert(replay(rs) =~= index_view(es));
    } else {
        assert(forall|t: int|
            0 <= t < es.len() - 1 ==> es.drop_last()[t] == es[t] && rs.drop_last()[t] == rs[t]);
        lemma_replay_of_puts(es.drop_last(), rs.drop_last());
        assert(rs.last() == rs[rs.len() - 1]);
        assert(es.last() == es[es.len() - 1]);
    }
}

impl KvStore {
    /// Copy every live record, in keydir order, into the text of a new
    /// compaction generation, and build the keydir that points at the
    /// copies.
    #[verifier::rlimit(100)]
    fn rewrite_live(&self, compaction_gen: u64) -> (r: (Vec<char>, Vec<IndexEntry>, Ghost<
        Seq<CmdModel>,
    >))
        requires
            self.wf(),
        ensures
            ({
                let (comp_data, new_index, comp_rs) = r;
                &&& new_index@.len() == self.index@.len()
                &&& comp_rs@.len() == self.index@.len()
                &&& comp_data@ == encodes_all(comp_rs@)
                &&& forall|t: int|
                    0 <= t < new_index@.len() ==> (#[trigger] new_index@[t]).key@
                        == self.index@[t].key@ && new_index@[t].val@ == self.index@[t].val@
                &&& forall|t: int|
                    0 <= t < new_index@.len() ==> (#[trigger] new_index@[t]).cp.gen
                        == compaction_gen && new_index@[t].cp.pos + new_index@[t].cp.len
                        <= comp_data@.len() && comp_data@.subrange(
                        new_index@[t].cp.pos as int,
                        new_index@[t].cp.pos as int + new_index@[t].cp.len as int,
                    ) == enc_cmd(CmdModel::Put(new_index@[t].key@, new_index@[t].val@))
                &&& forall|t: int|
                    0 <= t < comp_rs@.len() ==> comp_rs@[t] == CmdModel::Put(
                        (#[trigger] new_index@[t]).key@,
                        new_index@[t].val@,
                    )
            }),
    {
        let mut comp_data: Vec<char> = Vec::new();
        let mut new_index: Vec<IndexEntry> = Vec::new();
        let ghost mut comp_rs: Seq<CmdModel> = Seq::empty();
        let mut i: usize = 0;
        while i < self.index.len()
            invariant
                self.wf(),
                i <= self.index@.len(),
                new_index@.len() == i,
                comp_rs.len() == i,
                comp_data@ == encodes_all(comp_rs),
                forall|t: int|
                    0 <= t < i ==> (#[trigger] new_index@[t]).key@ == self.index@[t].key@
                        && new_index@[t].val@ == self.index@[t].val@,
                forall|t: int|
                    0 <= t < i ==> (#[trigger] new_index@[t]).cp.gen == compaction_gen
                        && new_index@[t].cp.pos + new_index@[t].cp.len <= comp_data@.len()
                        && comp_data@.subrange(
                        new_index@[t].cp.pos as int,
                        new_index@[t].cp.pos as int + new_index@[t].cp.len as int,
                    ) == enc_cmd(CmdModel::Put(new_index@[t].key@, new_index@[t].val@)),
                forall|t: int|
                    0 <= t < i ==> comp_rs[t] == CmdModel::Put(
                        (#[trigger] new_index@[t]).key@,
                        new_index@[t].val@,
                    ),
            decreases self.index@.len() - i,
        {
            let e = &self.index[i];
            let cp = e.cp;
            let ghost target = CmdModel::Put(e.key@, e.val@);
            proof {
                assert(entry_ok(self.index@[i as int], self.logs@));
            }
            match find_log(&self.logs, cp.gen) {
                Some(j) => {
                    proof {
                        let j2 = choose|j2: int|
                            0 <= j2 < self.logs@.len() && (#[trigger] self.logs@[j2]).gen
                                == e.cp.gen && e.cp.pos + e.cp.len <= self.logs@[j2].data@.len()
                                && self.logs@[j2].data@.subrange(
                                e.cp.pos as int,
                                e.cp.pos as int + e.cp.len as int,
                            ) == enc_cmd(target);
                        assert(j2 == j as int) by {
                            if j2 < j as int {
                                assert(self.logs@[j2].gen < self.logs@[j as int].gen);
                            } else if j2 > j as int {
                                assert(self.logs@[j as int].gen < self.logs@[j2].gen);
                            }
                        }
                    }
                    let dlen = self.logs[j].data.len();
                    proof {
                        assert(e.cp.pos + e.cp.len <= self.logs@[j as int].data@.len());
                        assert(dlen as int == self.logs@[j as int].data@.len());
                    }
                    let lo = cp.pos as usize;
                    let hi = (cp.pos + cp.len) as usize;
                    let new_pos = comp_data.len();
                    let slice = copy_range(&self.logs[j].data, lo, hi);
                    let ghost comp_before = comp_data@;
                    comp_data.extend_from_slice(slice.as_slice());
                    let ne = IndexEntry {
                        key: copy_range(&e.key, 0, e.key.len()),
                        cp: CommandPos {
                            gen: compaction_gen,
                            pos: new_pos as u64,
                            len: cp.len,
                        },
                        val: Ghost(e.val@),
                    };
                    proof {
                        assert(ne.key@ =~= e.key@);
                        assert(slice@ == enc_cmd(target));
                        assert(comp_rs.push(target) =~= comp_rs + seq![target]);
                        lemma_encodes_all_concat(comp_rs, seq![target]);
                        lemma_encodes_one(target);
                        assert(comp_data@ == encodes_all(comp_rs.push(target)));
                        // earlier copied records keep their places
                        assert(forall|k: int|
                            0 <= k < comp_before.len() ==> comp_data@[k] == comp_before[k]);
                        assert(forall|t: int|
                            0 <= t < i ==> comp_data@.subrange(
                                (#[trigger] new_index@[t]).cp.pos as int,
                                new_index@[t].cp.pos as int + new_index@[t].cp.len as int,
                            ) =~= comp_before.subrange(
                                new_index@[t].cp.pos as int,
                                new_index@[t].cp.pos as int + new_index@[t].cp.len as int,
                            ));
                        // the new record sits at the tail
                        assert(comp_data@.subrange(
                            new_pos as int,
                            new_pos as int + cp.len as int,
                        ) =~= enc_cmd(target));
                    }
                    new_index.push(ne);
                    proof {
                        comp_rs = comp_rs.push(target);
                    }
                },
                None => {
                    // the keydir only references live generations
                    proof {
                        assert(false);
                    }
                },
            }
            i = i + 1;
        }
        (comp_data, new_index, Ghost(comp_rs))
    }

    /// Queue the directory changes of one compaction: create the
    /// compaction and fresh generation files, write the compacted records,
    /// then delete every older generation file. Afterwards the queued
    /// actions turn the directory into exactly the two fresh files.
    #[verifier::rlimit(100)]
    fn queue_rewrite_actions(&mut self, compaction_gen: u64, new_gen: u64, action_data: Vec<char>)
        requires
            logs_wf(old(self).logs@),
            forall|i: int|
                0 <= i < old(self).logs@.len() ==> (#[trigger] old(self).logs@[i]).gen
                    < compaction_gen,
            compaction_gen < new_gen,
            apply_actions(old(self).disk@, old(self).pending()) == files_disk(
                log_pairs(old(self).logs@),
            ),
        ensures
            final(self).logs == old(self).logs,
            final(self).index == old(self).index,
            final(self).current_gen == old(self).current_gen,
            final(self).uncompacted == old(self).uncompacted,
            final(self).disk == old(self).disk,
            apply_actions(final(self).disk@, final(self).pending()) == Map::<
                u64,
                Seq<char>,
            >::empty().insert(compaction_gen, action_data@).insert(new_gen, Seq::<char>::empty()),
    {
        let ghost old_logs = self.logs@;
        let ghost old_pairs = log_pairs(old_logs);
        let ghost dstart = files_disk(old_pairs);
        let ghost comp_dv = action_data@;
        proof {
            assert(forall|a: int, b: int|
                0 <= a < b < old_pairs.len() ==> (#[trigger] old_pairs[a]).0 != (
                #[trigger] old_pairs[b]).0) by {
                assert(forall|i: int|
                    0 <= i < old_logs.len() ==> (#[trigger] old_pairs[i]).0 == old_logs[i].gen);
            }
            lemma_files_disk_entries(old_pairs);
        }
        let ghost mut m = dstart;
        let ghost pend0 = self.pending();
        self.actions.push(DiskAction::Create(compaction_gen));
        proof {
            assert(self.pending() =~= pend0.push(DiskActionModel::Create(compaction_gen)));
            lemma_apply_actions_push(self.disk@, pend0, DiskActionModel::Create(compaction_gen));
            m = m.insert(compaction_gen, Seq::empty());
            assert(apply_actions(self.disk@, self.pending()) == m);
        }
        let ghost pend1 = self.pending();
        self.actions.push(DiskAction::Append(compaction_gen, action_data));
        proof {
            assert(self.pending() =~= pend1.push(DiskActionModel::Append(compaction_gen, comp_dv)));
            lemma_apply_actions_push(
                self.disk@,
                pend1,
                DiskActionModel::Append(compaction_gen, comp_dv),
            );
            assert(Seq::<char>::empty() + comp_dv =~= comp_dv);
            m = m.insert(compaction_gen, comp_dv);
            assert(apply_actions(self.disk@, self.pending()) == m);
        }
        let ghost pend2 = self.pending();
        self.actions.push(DiskAction::Create(new_gen));
        proof {
            assert(self.pending() =~= pend2.push(DiskActionModel::Create(new_gen)));
            lemma_apply_actions_push(self.disk@, pend2, DiskActionModel::Create(new_gen));
            m = m.insert(new_gen, Seq::empty());
            assert(apply_actions(self.disk@, self.pending()) == m);
        }
        let mut t: usize = 0;
        while t < self.logs.len()
            invariant
                t <= self.logs@.len(),
                self.logs == old(self).logs,
                self.index == old(self).index,
                self.current_gen == old(self).current_gen,
                self.uncompacted == old(self).uncompacted,
                self.disk == old(self).disk,
                old_logs == old(self).logs@,
                forall|i2: int|
                    0 <= i2 < old_logs.len() ==> (#[trigger] old_logs[i2]).gen < compaction_gen,
                compaction_gen < new_gen,
                apply_actions(self.disk@, self.pending()) == m,
                m[compaction_gen] == comp_dv,
                m[new_gen] == Seq::<char>::empty(),
                forall|g: u64|
                    #[trigger] m.dom().contains(g) <==> (g == compaction_gen || g == new_gen || (
                    dstart.dom().contains(g) && !(exists|t2: int|
                        0 <= t2 < t && (#[trigger] old_logs[t2]).gen == g))),
            decreases self.logs@.len() - t,
        {
            let g = self.logs[t].gen;
            let ghost pend = self.pending();
            proof {
                assert(g == old_logs[t as int].gen);
            }
            self.actions.push(DiskAction::Delete(g));
            proof {
                assert(self.pending() =~= pend.push(DiskActionModel::Delete(g)));
                lemma_apply_actions_push(self.disk@, pend, DiskActionModel::Delete(g));
                m = m.remove(g);
                assert(apply_actions(self.disk@, self.pending()) == m);
                assert(g < compaction_gen);
                assert(forall|g2: u64|
                    #[trigger] m.dom().contains(g2) <==> (g2 == compaction_gen || g2 == new_gen
                        || (dstart.dom().contains(g2) && !(exists|t2: int|
                        0 <= t2 < t + 1 && (#[trigger] old_logs[t2]).gen == g2)))) by {
                    assert(old_logs[t as int].gen == g);
                }
            }
            t = t + 1;
        }
        proof {
            let target = Map::<u64, Seq<char>>::empty().insert(compaction_gen, comp_dv).insert(
                new_gen,
                Seq::<char>::empty(),
            );
            assert(m =~= target) by {
                assert(forall|g: u64|
                    dstart.dom().contains(g) ==> (exists|t2: int|
                        0 <= t2 < old_logs.len() && (#[trigger] old_logs[t2]).gen == g)) by {
                    assert(forall|i2: int|
                        0 <= i2 < old_pairs.len() ==> (#[trigger] old_pairs[i2]).0 == old_logs[
                            i2].gen);
                }
            }
        }
    }

    /// Rewrite only the live records into a fresh compaction generation,
    /// point the keydir at them, open one more fresh generation for
    /// appending, and delete every older generation file. The key/value map
    /// is unchanged and the reclaimable count returns to zero.
    #[verifier::rlimit(100)]
    fn compact(&mut self)
        requires
            old(self).wf(),
            old(self).current_gen <= u64::MAX - 2,
        ensures
            final(self).wf(),
            final(self)@ == old(self)@,
            final(self).uncompacted == 0,
            final(self).current_gen == old(self).current_gen + 2,
            final(self).log_seq().len() == 2,
            final(self).log_seq()[0].0 == old(self).current_gen + 1,
            final(self).log_seq()[1] == (
                (old(self).current_gen + 2) as u64,
                Seq::<char>::empty(),
            ),
            compacted_form(final(self).log_seq()[0].1, final(self)@),
    {
        let compaction_gen = self.current_gen + 1;
        let new_gen = self.current_gen + 2;
        let ghost old_logs = self.logs@;
        proof {
            assert(forall|i: int|
                0 <= i < old_logs.len() ==> (#[trigger] old_logs[i]).gen <= self.current_gen) by {
                assert(forall|i: int|
                    0 <= i < old_logs.len() - 1 ==> (#[trigger] old_logs[i]).gen < old_logs[
                        old_logs.len() - 1].gen);
            }
        }
        let (comp_data, new_index, comp_rs_g) = self.rewrite_live(compaction_gen);
        let ghost comp_rs = comp_rs_g@;
        let ghost old_index = self.index@;
        let action_data = copy_range(&comp_data, 0, comp_data.len());
        let ghost comp_dv = comp_data@;
        proof {
            assert(action_data@ =~= comp_dv);
        }
        self.queue_rewrite_actions(compaction_gen, new_gen, action_data);
        // install the compaction log and a fresh log for appends
        let comp_log = LogFile { gen: compaction_gen, data: comp_data };
        let fresh_log = LogFile { gen: new_gen, data: Vec::new() };
        let mut new_logs: Vec<LogFile> = Vec::new();
        new_logs.push(comp_log);
        new_logs.push(fresh_log);
        self.logs = new_logs;
        self.index = new_index;
        self.current_gen = new_gen;
        self.uncompacted = 0;
        proof {
            lemma_compact_logs(self.logs@, comp_rs, comp_dv, compaction_gen, new_gen);
            lemma_compact_index(old_index, self.index@, comp_rs);
            lemma_compact_entries(self.index@, self.logs@, comp_dv, compaction_gen);
            assert(self.uncompacted as int <= replay_reclaim(logs_records(self.logs@))) by {
                lemma_reclaim_on_bounds(0, Map::empty(), comp_rs);
            }
            assert(self.wf());
            // the new directory holds only the live records, each key once
            assert(self.log_seq().len() == 2);
            assert(self.log_seq()[0] == (compaction_gen, comp_dv));
            assert(self.log_seq()[1] == (new_gen, self.logs@[1].data@));
            assert(self.logs@[1].data@ =~= Seq::<char>::empty());
            lemma_compacted_form(self.index@, comp_rs, comp_dv);
        }
    }
}

/// The two logs installed by compaction are coherent: the compaction log
/// replays to exactly the copied records, the fresh log is empty, and the
/// directory holding them is the two-file map.
proof fn lemma_compact_logs(l2: Seq<LogFile>, rs: Seq<CmdModel>, dv: Seq<char>, cg: u64, ng: u64)
    requires
        l2.len() == 2,
        l2[0].gen == cg,
        l2[0].data@ == dv,
        l2[1].gen == ng,
        l2[1].data@ == Seq::<char>::empty(),
        cg < ng,
        dv == encodes_all(rs),
    ensures
        logs_wf(l2),
        logs_records(l2) == rs,
        files_disk(log_pairs(l2)) == Map::<u64, Seq<char>>::empty().insert(cg, dv).insert(
            ng,
            Seq::<char>::empty(),
        ),
{
    lemma_p_records_complete(rs);
    assert(l2[0].wf() && l2[0].records() == rs);
    assert(p_records(l2[1].data@) == Some(Seq::<CmdModel>::empty()));
    assert(l2[1].wf() && l2[1].records() =~= Seq::<CmdModel>::empty());
    assert(logs_wf(l2)) by {
        assert(forall|i: int| 0 <= i < 2 ==> (#[trigger] l2[i]).wf());
    }
    assert(logs_records(l2) =~= rs) by {
        let single = seq![l2[0]];
        assert(single.drop_last() =~= Seq::<LogFile>::empty());
        assert(single.last() == l2[0]);
        assert(logs_records(Seq::<LogFile>::empty()) == Seq::<CmdModel>::empty());
        assert(logs_records(single) == logs_records(single.drop_last()) + single.last().records());
        assert(logs_records(single) == Seq::<CmdModel>::empty() + rs);
        assert(Seq::<CmdModel>::empty() + rs =~= rs);
        assert(l2.last() == l2[1]);
        assert(l2.drop_last() =~= single);
        assert(logs_records(l2) == logs_records(l2.drop_last()) + l2.last().records());
    }
    let pairs = log_pairs(l2);
    assert(pairs.len() == 2);
    assert(pairs[0] == (cg, dv) && pairs[1] == (ng, Seq::<char>::empty()));
    assert(pairs.last() == (ng, Seq::<char>::empty()));
    let single = seq![(cg, dv)];
    assert(pairs.drop_last() =~= single);
    assert(single.drop_last() =~= Seq::<(u64, Seq<char>)>::empty());
    assert(single.last() == (cg, dv));
    assert(files_disk(Seq::<(u64, Seq<char>)>::empty()) == Map::<u64, Seq<char>>::empty());
    assert(files_disk(single) == files_disk(single.drop_last()).insert(cg, dv));
    assert(files_disk(pairs) == files_disk(pairs.drop_last()).insert(ng, Seq::<char>::empty()));
    assert(files_disk(pairs) == Map::<u64, Seq<char>>::empty().insert(cg, dv).insert(
        ng,
        Seq::<char>::empty(),
    ));
}

/// The rebuilt keydir means the same map as the old one, and equals the
/// replay of the copied records.
proof fn lemma_compact_index(old_es: Seq<IndexEntry>, es: Seq<IndexEntry>, rs: Seq<CmdModel>)
    requires
        es.len() == old_es.len(),
        rs.len() == es.len(),
        keys_distinct(old_es),
        forall|t: int|
            0 <= t < es.len() ==> (#[trigger] es[t]).key@ == old_es[t].key@ && es[t].val@
                == old_es[t].val@,
        forall|t: int|
            0 <= t < rs.len() ==> rs[t] == CmdModel::Put((#[trigger] es[t]).key@, es[t].val@),
    ensures
        keys_distinct(es),
        index_view(es) == index_view(old_es),
        index_view(es) == replay(rs),
{
    assert(keys_distinct(es)) by {
        assert(forall|a: int, b: int|
            0 <= a < b < old_es.len() ==> (#[trigger] old_es[a]).key@ != (
            #[trigger] old_es[b]).key@);
    }
    lemma_index_view_congruent(es, old_es);
    lemma_replay_of_puts(es, rs);
}

/// Every rebuilt keydir entry is backed by the installed compaction log.
proof fn lemma_compact_entries(es: Seq<IndexEntry>, l2: Seq<LogFile>, dv: Seq<char>, cg: u64)
    requires
        l2.len() == 2,
        l2[0].gen == cg,
        l2[0].data@ == dv,
        forall|t: int|
            0 <= t < es.len() ==> (#[trigger] es[t]).cp.gen == cg && es[t].cp.pos + es[t].cp.len
                <= dv.len() && dv.subrange(
                es[t].cp.pos as int,
                es[t].cp.pos as int + es[t].cp.len as int,
            ) == enc_cmd(CmdModel::Put(es[t].key@, es[t].val@)),
    ensures
        entries_ok(es, l2),
{
    assert forall|t: int| 0 <= t < es.len() implies entry_ok(#[trigger] es[t], l2) by {
        let e = es[t];
        assert(l2[0].gen == e.cp.gen && e.cp.pos + e.cp.len <= l2[0].data@.len()
            && l2[0].data@.subrange(e.cp.pos as int, e.cp.pos as int + e.cp.len as int)
            == enc_cmd(CmdModel::Put(e.key@, e.val@)));
    }
}

impl KvStore {
    /// Hand the queued directory changes to the owner, in order. Applying
    /// them to a directory that matched `base_disk()` leaves it holding
    /// exactly this store's generation files, which becomes the new base.
    pub fn take_actions(&mut self) -> (r: Vec<DiskAction>)
        requires
            old(self).wf(),
        ensures
            final(self).wf(),
            final(self)@ == old(self)@,
            action_models(r@) == old(self).pending(),
            final(self).pending() == Seq::<DiskActionModel>::empty(),
            final(self).log_seq() == old(self).log_seq(),
            final(self).base_disk() == apply_actions(old(self).base_disk(), old(self).pending()),
            final(self).base_disk() == files_disk(final(self).log_seq()),
    {
        let mut out: Vec<DiskAction> = Vec::new();
        core::mem::swap(&mut out, &mut self.actions);
        proof {
            self.disk = Ghost(files_disk(log_pairs(self.logs@)));
            assert(self.pending() =~= Seq::<DiskActionModel>::empty());
        }
        out
    }

    /// Durability: a coherent store's generation files replay, in order, to
    /// exactly the store's key/value map. Hence reopening a store from the
    /// files it left behind — after a `set` or `remove` returned, and
    /// whether or not compaction ran — yields the same map, as `open`'s
    /// contract states.
    pub proof fn lemma_durability(self)
        requires
            self.wf(),
        ensures
            files_records(self.log_seq()) matches Some(rs) && replay(rs) == self@,
    {
        self.lemma_logs_replay(self.logs@.len() as int);
        assert(self.log_seq().take(self.logs@.len() as int) =~= self.log_seq());
        assert(self.logs@.take(self.logs@.len() as int) =~= self.logs@);
    }

    /// The first `n` generation files replay to the records of the first
    /// `n` logs.
    proof fn lemma_logs_replay(self, n: int)
        requires
            self.wf(),
            0 <= n <= self.logs@.len(),
        ensures
            files_records(self.log_seq().take(n)) == Some(logs_records(self.logs@.take(n))),
    decreases n,
    {
        if n == 0 {
            assert(self.log_seq().take(0) =~= Seq::<(u64, Seq<char>)>::empty());
            assert(self.logs@.take(0) =~= Seq::<LogFile>::empty());
        } else {
            self.lemma_logs_replay(n - 1);
            let fp = self.log_seq().take(n);
            let lp = self.logs@.take(n);
            assert(fp.drop_last() =~= self.log_seq().take(n - 1));
            assert(lp.drop_last() =~= self.logs@.take(n - 1));
            let l = self.logs@[n - 1];
            assert(lp.last() == l);
            assert(fp.last() == (l.gen, l.data@));
            assert(l.wf());
            assert(p_records(l.data@) == Some(l.records()));
        }
    }
}

/// A key set and never unset afterwards reads back as the last value
/// written: replaying any record sequence whose position `i` holds
/// `Set(k, v)` and whose later records never touch `k` binds `k` to `v`.
pub proof fn lemma_last_set_wins(rs: Seq<CmdModel>, i: int, k: Seq<char>, v: Seq<char>)
    requires
        0 <= i < rs.len(),
        rs[i] == CmdModel::Put(k, v),
        forall|j: int| i < j < rs.len() ==> !touches(#[trigger] rs[j], k),
    ensures
        replay(rs).contains_key(k),
        replay(rs)[k] == v,
    decreases rs.len(),
{
    if i == rs.len() - 1 {
        assert(rs.last() == rs[i]);
    } else {
        assert(forall|j: int|
            i < j < rs.len() - 1 ==> !touches(#[trigger] rs.drop_last()[j], k));
        assert(rs.drop_last()[i] == rs[i]);
        lemma_last_set_wins(rs.drop_last(), i, k, v);
        assert(!touches(rs[rs.len() - 1], k));
        assert(rs.last() == rs[rs.len() - 1]);
    }
}

/// A key removed and never touched afterwards stays absent: replaying any
/// record sequence whose position `i` holds `Remove(k)` and whose later
/// records never touch `k` leaves `k` unbound.
pub proof fn lemma_remove_sticks(rs: Seq<CmdModel>, i: int, k: Seq<char>)
    requires
        0 <= i < rs.len(),
        rs[i] == CmdModel::Rm(k),
        forall|j: int| i < j < rs.len() ==> !touches(#[trigger] rs[j], k),
    ensures
        !replay(rs).contains_key(k),
    decreases rs.len(),
{
    if i == rs.len() - 1 {
        assert(rs.last() == rs[i]);
    } else {
        assert(forall|j: int|
            i < j < rs.len() - 1 ==> !touches(#[trigger] rs.drop_last()[j], k));
        assert(rs.drop_last()[i] == rs[i]);
        lemma_remove_sticks(rs.drop_last(), i, k);
        assert(!touches(rs[rs.len() - 1], k));
        assert(rs.last() == rs[rs.len() - 1]);
    }
}

/// Whether a record sets or removes the key.
pub open spec fn touches(c: CmdModel, k: Seq<char>) -> bool {
    match c {
        CmdModel::Put(k2, _) => k2 == k,
        CmdModel::Rm(k2) => k2 == k,
    }
}

} // verus!
