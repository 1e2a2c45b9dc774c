//! The log-structured engine: an in-memory index from key to the position of
//! its latest `Set` record, one log image per generation, replay at open,
//! and compaction into a fresh generation.
//!
//! The engine holds the log text of every generation; a host program applies
//! the emitted [`FsOp`] effects to a real directory to make them durable.

use vstd::prelude::*;

use crate::codec::{enc_rec, RecordView};
use crate::logfile::{log_parse, LogFile, PosRec};

verus! {

/// Where one key's latest `Set` record sits: generation, start offset, and
/// the length of the record including its framing newline.
#[derive(Debug, Clone, Copy)]
pub struct IndexPos {
    pub gen: u64,
    pub pos: usize,
    pub len: usize,
}

/// The mathematical value of an index entry: the position fields plus the
/// value the record binds.
#[verifier::ext_equal]
pub struct EntryV {
    pub gen: u64,
    pub pos: int,
    pub len: int,
    pub val: Seq<char>,
}

/// One in-memory index entry.  The bound value is carried as ghost state so
/// that contracts can speak of it; the text on disk is authoritative.
pub struct IndexEntry {
    pub key: String,
    pub pos: IndexPos,
    pub val: Ghost<Seq<char>>,
}

/// The mathematical value of one entry.
pub open spec fn entry_v(e: IndexEntry) -> EntryV {
    EntryV { gen: e.pos.gen, pos: e.pos.pos as int, len: e.pos.len as int, val: e.val@ }
}

/// No two entries bind the same key.
pub open spec fn keys_distinct(entries: Seq<IndexEntry>) -> bool {
    forall|i: int, j: int| 0 <= i < j < entries.len() ==> entries[i].key@ != entries[j].key@
}

/// The index as a map from key to entry.
pub open spec fn index_map_of(entries: Seq<IndexEntry>) -> Map<Seq<char>, EntryV>
    decreases entries.len(),
{
    if entries.len() == 0 {
        Map::empty()
    } else {
        index_map_of(entries.drop_last()).insert(entries.last().key@, entry_v(entries.last()))
    }
}

/// With distinct keys, the map agrees with the entries pointwise, and every
/// key of the map comes from some entry.
pub proof fn lemma_index_map_char(entries: Seq<IndexEntry>)
    requires
        keys_distinct(entries),
    ensures
        forall|i: int| 0 <= i < entries.len() ==> index_map_of(entries).contains_key(
            #[trigger] entries[i].key@,
        ) && index_map_of(entries)[entries[i].key@] == entry_v(entries[i]),
        forall|k: Seq<char>| #[trigger] index_map_of(entries).contains_key(k) ==> exists|i: int|
            0 <= i < entries.len() && entries[i].key@ == k,
    decreases entries.len(),
{
    if entries.len() > 0 {
        assert(keys_distinct(entries.drop_last()));
        lemma_index_map_char(entries.drop_last());
        assert(forall|i: int| 0 <= i < entries.len() - 1 ==> entries.drop_last()[i]
            == #[trigger] entries[i]);
        assert forall|k: Seq<char>| #[trigger] index_map_of(entries).contains_key(k) implies exists|
            i: int,
        | 0 <= i < entries.len() && entries[i].key@ == k by {
            if k == entries.last().key@ {
                assert(entries[entries.len() - 1].key@ == k);
            } else {
                assert(index_map_of(entries.drop_last()).contains_key(k));
                let i = choose|i: int|
                    0 <= i < entries.len() - 1 && entries.drop_last()[i].key@ == k;
                assert(entries[i].key@ == k);
            }
        }
    }
}

/// Removing one entry removes exactly its key from the map.
pub proof fn lemma_index_map_remove(entries: Seq<IndexEntry>, i: int)
    requires
        keys_distinct(entries),
        0 <= i < entries.len(),
    ensures
        keys_distinct(entries.remove(i)),
        index_map_of(entries.remove(i)) == index_map_of(entries).remove(entries[i].key@),
{
    let rest = entries.remove(i);
    assert(keys_distinct(rest)) by {
        assert(forall|a: int| 0 <= a < rest.len() ==> #[trigger] rest[a] == (if a < i {
            entries[a]
        } else {
            entries[a + 1]
        }));
    }
    lemma_index_map_char(entries);
    lemma_index_map_char(rest);
    let m1 = index_map_of(rest);
    let m2 = index_map_of(entries).remove(entries[i].key@);
    assert forall|k: Seq<char>| #[trigger] m1.contains_key(k) implies m2.contains_key(k) && m1[k]
        == m2[k] by {
        let a = choose|a: int| 0 <= a < rest.len() && rest[a].key@ == k;
        let b: int = if a < i {
            a
        } else {
            a + 1
        };
        assert(rest[a] == entries[b]);
        assert(entries[b].key@ == k && b != i);
        assert(index_map_of(entries).contains_key(k) && index_map_of(entries)[k] == entry_v(
            entries[b],
        ));
        assert(m1[k] == entry_v(rest[a]));
    }
    assert forall|k: Seq<char>| #[trigger] m2.contains_key(k) implies m1.contains_key(k) by {
        assert(index_map_of(entries).contains_key(k) && k != entries[i].key@);
        let b = choose|b: int| 0 <= b < entries.len() && entries[b].key@ == k;
        assert(b != i);
        let a: int = if b < i {
            b
        } else {
            b - 1
        };
        assert(rest[a] == entries[b]);
        assert(rest[a].key@ == k);
    }
    assert(m1 =~= m2);
}

/// Find the entry bound to `key`, if any.
pub(crate) fn index_find(entries: &Vec<IndexEntry>, key: &String) -> (r: Option<usize>)
    requires
        keys_distinct(entries@),
    ensures
        match r {
            Some(i) => i < entries@.len() && entries@[i as int].key@ == key@ && index_map_of(
                entries@,
            ).contains_key(key@) && index_map_of(entries@)[key@] == entry_v(entries@[i as int]),
            None => !index_map_of(entries@).contains_key(key@),
        },
{
    proof {
        lemma_index_map_char(entries@);
    }
    let n = entries.len();
    let mut i: usize = 0;
    while i < n
        invariant
            0 <= i <= n == entries@.len(),
            keys_distinct(entries@),
            forall|j: int| 0 <= j < i ==> entries@[j].key@ != key@,
        decreases n - i,
    {
        if entries[i].key.eq(key) {
            proof {
                lemma_index_map_char(entries@);
            }
            return Some(i);
        }
        i = i + 1;
    }
    proof {
        if index_map_of(entries@).contains_key(key@) {
            lemma_index_map_char(entries@);
            let w = choose|w: int| 0 <= w < entries@.len() && entries@[w].key@ == key@;
            assert(false);
        }
    }
    None
}

/// Bind `key` to a fresh entry, superseding any old binding; the old entry's
/// length comes back for the caller's garbage accounting.
pub(crate) fn index_put(entries: &mut Vec<IndexEntry>, key: String, pos: IndexPos, val: Ghost<Seq<char>>)
    -> (old_len: Option<usize>)
    requires
        keys_distinct(old(entries)@),
    ensures
        keys_distinct(final(entries)@),
        index_map_of(final(entries)@) == index_map_of(old(entries)@).insert(
            key@,
            EntryV { gen: pos.gen, pos: pos.pos as int, len: pos.len as int, val: val@ },
        ),
        match old_len {
            Some(l) => index_map_of(old(entries)@).contains_key(key@) && l as int == index_map_of(
                old(entries)@,
            )[key@].len,
            None => !index_map_of(old(entries)@).contains_key(key@),
        },
{
    let ghost k = key@;
    let ghost m0 = index_map_of(entries@);
    let ghost e_new = EntryV { gen: pos.gen, pos: pos.pos as int, len: pos.len as int, val: val@ };
    let found = index_find(entries, &key);
    let old_len = match found {
        Some(i) => {
            let e = entries.remove(i);
            proof {
                lemma_index_map_remove(old(entries)@, i as int);
            }
            Some(e.pos.len)
        },
        None => None,
    };
    let ghost pre = entries@;
    let new_entry = IndexEntry { key, pos, val };
    entries.push(new_entry);
    proof {
        assert(entries@.drop_last() =~= pre);
        assert(index_map_of(entries@) == index_map_of(pre).insert(k, e_new));
        // no key of `pre` equals `k`
        assert forall|j: int| 0 <= j < pre.len() implies pre[j].key@ != k by {
            match found {
                Some(i) => {
                    assert(pre == old(entries)@.remove(i as int));
                    let b: int = if j < i { j } else { j + 1 };
                    assert(pre[j] == old(entries)@[b]);
                    assert(b != i);
                    assert(old(entries)@[i as int].key@ == k);
                },
                None => {
                    lemma_index_map_char(pre);
                    assert(index_map_of(pre).contains_key(pre[j].key@));
                },
            }
        }
        assert(keys_distinct(entries@)) by {
            assert(forall|j: int| 0 <= j < pre.len() ==> entries@[j] == pre[j]);
        }
        assert(index_map_of(entries@) =~= index_map_of(old(entries)@).insert(k, e_new));
    }
    old_len
}

// ------------------------------------------------------------------
// Replay: folding a log's records into the index
// ------------------------------------------------------------------

/// `u64` saturating addition, the garbage counter's arithmetic.
pub open spec fn sadd(a: int, b: int) -> int {
    if a + b > u64::MAX {
        u64::MAX as int
    } else {
        a + b
    }
}

/// Saturating add on the counter.
pub(crate) fn sat_add(a: u64, b: u64) -> (r: u64)
    ensures
        r as int == sadd(a as int, b as int),
{
    if a > u64::MAX - b {
        u64::MAX
    } else {
        a + b
    }
}

/// One replay step: what one record of generation `g` does to the index map
/// and to the garbage counter.  A superseded entry's length becomes garbage;
/// a tombstone also counts itself.
pub open spec fn rec_step(m: Map<Seq<char>, EntryV>, garbage: int, g: u64, pr: PosRec) -> (
    Map<Seq<char>, EntryV>,
    int,
) {
    match pr.rec {
        RecordView::Put { key, value } => (
            m.insert(key, EntryV { gen: g, pos: pr.start, len: pr.end - pr.start, val: value }),
            if m.contains_key(key) {
                sadd(garbage, m[key].len)
            } else {
                garbage
            },
        ),
        RecordView::Remove { key } => (
            m.remove(key),
            sadd(
                if m.contains_key(key) {
                    sadd(garbage, m[key].len)
                } else {
                    garbage
                },
                pr.end - pr.start,
            ),
        ),
    }
}

/// Replay a sequence of records of generation `g`, left to right.
pub open spec fn replay_recs(
    m: Map<Seq<char>, EntryV>,
    garbage: int,
    g: u64,
    recs: Seq<PosRec>,
) -> (Map<Seq<char>, EntryV>, int)
    decreases recs.len(),
{
    if recs.len() == 0 {
        (m, garbage)
    } else {
        let s = rec_step(m, garbage, g, recs[0]);
        replay_recs(s.0, s.1, g, recs.drop_first())
    }
}

/// Replaying one more record at the end folds one more step.
pub proof fn lemma_replay_recs_snoc(
    m: Map<Seq<char>, EntryV>,
    garbage: int,
    g: u64,
    recs: Seq<PosRec>,
    pr: PosRec,
)
    ensures
        replay_recs(m, garbage, g, recs.push(pr)) == {
            let s = replay_recs(m, garbage, g, recs);
            rec_step(s.0, s.1, g, pr)
        },
    decreases recs.len(),
{
    if recs.len() == 0 {
        let s = rec_step(m, garbage, g, pr);
        assert(recs.push(pr)[0] == pr);
        assert(recs.push(pr).drop_first() =~= Seq::<PosRec>::empty());
        assert(replay_recs(m, garbage, g, recs) == (m, garbage));
        assert(replay_recs(s.0, s.1, g, Seq::<PosRec>::empty()) == (s.0, s.1));
        assert(replay_recs(m, garbage, g, recs.push(pr)) == (s.0, s.1));
    } else {
        assert(recs.push(pr)[0] == recs[0]);
        assert(recs.push(pr).drop_first() =~= recs.drop_first().push(pr));
        let s = rec_step(m, garbage, g, recs[0]);
        lemma_replay_recs_snoc(s.0, s.1, g, recs.drop_first(), pr);
        assert(replay_recs(m, garbage, g, recs.push(pr)) == replay_recs(
            s.0,
            s.1,
            g,
            recs.drop_first().push(pr),
        ));
        assert(replay_recs(m, garbage, g, recs) == replay_recs(s.0, s.1, g, recs.drop_first()));
    }
}

/// Replay every file in order: the index map and garbage counter that the
/// logs on disk stand for.
pub open spec fn replay_files(files: Seq<LogFile>) -> (Map<Seq<char>, EntryV>, int)
    decreases files.len(),
{
    if files.len() == 0 {
        (Map::<Seq<char>, EntryV>::empty(), 0)
    } else {
        let p = replay_files(files.drop_last());
        replay_recs(p.0, p.1, files.last().gen, log_parse(files.last().content@).recs)
    }
}

/// Mapping an insert through the value projection.
pub proof fn lemma_map_values_insert(m: Map<Seq<char>, EntryV>, k: Seq<char>, e: EntryV)
    ensures
        m.insert(k, e).map_values(|x: EntryV| x.val) == m.map_values(|x: EntryV| x.val).insert(
            k,
            e.val,
        ),
{
    assert(m.insert(k, e).map_values(|x: EntryV| x.val) =~= m.map_values(
        |x: EntryV| x.val,
    ).insert(k, e.val));
}

/// Mapping a remove through the value projection.
pub proof fn lemma_map_values_remove(m: Map<Seq<char>, EntryV>, k: Seq<char>)
    ensures
        m.remove(k).map_values(|x: EntryV| x.val) == m.map_values(|x: EntryV| x.val).remove(k),
{
    assert(m.remove(k).map_values(|x: EntryV| x.val) =~= m.map_values(|x: EntryV| x.val).remove(
        k,
    ));
}

// ------------------------------------------------------------------
// The store
// ------------------------------------------------------------------

/// A filesystem effect for the host program to apply to the store's
/// directory, in order: create `<gen>.log` empty, append bytes to it, or
/// delete it.  The engine itself is the authority on the file contents.
pub enum FsOp {
    CreateLog { gen: u64 },
    AppendLog { gen: u64, text: String },
    DeleteLog { gen: u64 },
}

/// One directory entry handed to [`KvStore::open`]: a file name and the
/// file's text.
pub struct DirEntry {
    pub name: String,
    pub content: String,
}

/// The generations are strictly ascending and every file is well-formed.
pub open spec fn files_wf(files: Seq<LogFile>) -> bool {
    &&& forall|i: int, j: int| 0 <= i < j < files.len() ==> files[i].gen < files[j].gen
    &&& forall|i: int| 0 <= i < files.len() ==> (#[trigger] files[i]).read_pos
        <= files[i].content@.len()
}

/// The log-structured key-value store.
pub struct KvStore {
    /// The in-memory index, one entry per live key.
    pub index: Vec<IndexEntry>,
    /// One log image per open generation, ascending; the last is active.
    pub files: Vec<LogFile>,
    /// The active generation.
    pub current_gen: u64,
    /// The end of the active log, where the next append goes.
    pub writer_pos: usize,
    /// Bytes of superseded records since the last compaction.
    pub uncompacted: u64,
    /// Filesystem effects not yet handed to the host program.
    pub pending: Vec<FsOp>,
}

impl View for KvStore {
    type V = Map<Seq<char>, Seq<char>>;

    /// The abstract contents: each key bound to the value of its latest
    /// `Set` record.
    open spec fn view(&self) -> Map<Seq<char>, Seq<char>> {
        index_map_of(self.index@).map_values(|e: EntryV| e.val)
    }
}

impl KvStore {
    /// Every index entry points at a well-formed `Set` record for its key,
    /// inside the file of its generation.
    pub open spec fn entries_located(self) -> bool {
        forall|k: Seq<char>| #[trigger] index_map_of(self.index@).contains_key(k) ==> {
            let e = index_map_of(self.index@)[k];
            exists|i: int|
                {
                    &&& 0 <= i < self.files@.len()
                    &&& (#[trigger] self.files@[i]).gen == e.gen
                    &&& 0 <= e.pos
                    &&& e.pos + e.len <= self.files@[i].content@.len()
                    &&& e.len == enc_rec(RecordView::Put { key: k, value: e.val }).len()
                    &&& self.files@[i].content@.subrange(e.pos, e.pos + e.len) == enc_rec(
                        RecordView::Put { key: k, value: e.val },
                    )
                }
        }
    }

    /// The store's invariant: at least one file; generations strictly
    /// ascending; the last file is the active one, fully framed, with the
    /// writer at its end; the index has distinct keys, locates real records,
    /// and equals what replaying every log yields.
    pub open spec fn wf(self) -> bool {
        &&& self.files@.len() >= 1
        &&& files_wf(self.files@)
        &&& self.files@.last().gen == self.current_gen
        &&& self.writer_pos == self.files@.last().content@.len()
        &&& crate::logfile::fully_framed(self.files@.last().content@)
        &&& (forall|i: int| 0 <= i < self.files@.len() ==> crate::logfile::log_parse(
            (#[trigger] self.files@[i]).content@,
        ).tail != crate::logfile::LogTail::Malformed)
        &&& keys_distinct(self.index@)
        &&& index_map_of(self.index@) == replay_files(self.files@).0
        &&& self.entries_located()
    }

    /// The generation numbers of the open log files, ascending; the last one
    /// is the active generation.
    pub fn generations(&self) -> (r: Vec<u64>)
        ensures
            r@.len() == self.files@.len(),
            forall|i: int| 0 <= i < r@.len() ==> r@[i] == self.files@[i].gen,
    {
        let mut r: Vec<u64> = Vec::new();
        let n = self.files.len();
        let mut i: usize = 0;
        while i < n
            invariant
                0 <= i <= n == self.files@.len(),
                r@.len() == i,
                forall|j: int| 0 <= j < i ==> r@[j] == self.files@[j].gen,
            decreases n - i,
        {
            r.push(self.files[i].gen);
            i = i + 1;
        }
        r
    }

    /// The text of generation `gen`'s log, if that generation is open.
    pub fn log_text(&self, gen: u64) -> (r: Option<String>)
        ensures
            match r {
                Some(t) => exists|i: int|
                    0 <= i < self.files@.len() && (#[trigger] self.files@[i]).gen == gen
                        && t@ == self.files@[i].content@,
                None => forall|i: int|
                    0 <= i < self.files@.len() ==> (#[trigger] self.files@[i]).gen != gen,
            },
    {
        let n = self.files.len();
        let mut i: usize = 0;
        while i < n
            invariant
                0 <= i <= n == self.files@.len(),
                forall|j: int| 0 <= j < i ==> (#[trigger] self.files@[j]).gen != gen,
            decreases n - i,
        {
            if self.files[i].gen == gen {
                return Some(crate::strutil::string_of(&self.files[i].content));
            }
            i = i + 1;
        }
        None
    }

    /// The active generation: the one that receives appends.
    pub fn active_generation(&self) -> (r: u64)
        ensures
            r == self.current_gen,
            self.wf() ==> r == self.files@.last().gen,
    {
        self.current_gen
    }

    /// The bytes of superseded records not yet reclaimed by compaction.
    pub fn uncompacted_bytes(&self) -> (r: u64)
        ensures
            r == self.uncompacted,
    {
        self.uncompacted
    }

    /// Hand out the filesystem effects accumulated since the last call, in
    /// the order they must be applied.
    pub fn take_effects(&mut self) -> (r: Vec<FsOp>)
        requires
            old(self).wf(),
        ensures
            final(self).wf(),
            final(self)@ == old(self)@,
            final(self).pending@.len() == 0,
            r@ == old(self).pending@,
    {
        let mut out: Vec<FsOp> = Vec::new();
        core::mem::swap(&mut out, &mut self.pending);
        out
    }
}


/// Replay reads only generations and contents, never read cursors.
pub proof fn lemma_replay_files_congruence(a: Seq<LogFile>, b: Seq<LogFile>)
    requires
        a.len() == b.len(),
        forall|i: int| 0 <= i < a.len() ==> (#[trigger] a[i]).gen == b[i].gen && a[i].content@
            == b[i].content@,
    ensures
        replay_files(a) == replay_files(b),
    decreases a.len(),
{
    if a.len() > 0 {
        assert(forall|i: int| 0 <= i < a.len() - 1 ==> (#[trigger] a.drop_last()[i])
            == a[i] && b.drop_last()[i] == b[i]);
        lemma_replay_files_congruence(a.drop_last(), b.drop_last());
        assert(a.last().gen == b.last().gen && a.last().content@ == b.last().content@);
    }
}

/// The position of the file with generation `g`.
pub(crate) fn find_file(files: &Vec<LogFile>, g: u64) -> (r: usize)
    requires
        exists|i: int| 0 <= i < files@.len() && (#[trigger] files@[i]).gen == g,
    ensures
        r < files@.len(),
        files@[r as int].gen == g,
{
    let n = files.len();
    let mut i: usize = 0;
    while i < n
        invariant
            0 <= i <= n == files@.len(),
            forall|j: int| 0 <= j < i ==> (#[trigger] files@[j]).gen != g,
            exists|j: int| 0 <= j < files@.len() && (#[trigger] files@[j]).gen == g,
        decreases n - i,
    {
        if files[i].gen == g {
            return i;
        }
        i = i + 1;
    }
    proof {
        let w = choose|j: int| 0 <= j < files@.len() && (#[trigger] files@[j]).gen == g;
        assert(false);
    }
    0
}

/// Remove the entry bound to `key`; its length comes back.
pub(crate) fn index_remove(entries: &mut Vec<IndexEntry>, key: &String) -> (r: Option<usize>)
    requires
        keys_distinct(old(entries)@),
    ensures
        keys_distinct(final(entries)@),
        index_map_of(final(entries)@) == index_map_of(old(entries)@).remove(key@),
        match r {
            Some(l) => index_map_of(old(entries)@).contains_key(key@) && l as int == index_map_of(
                old(entries)@,
            )[key@].len,
            None => !index_map_of(old(entries)@).contains_key(key@),
        },
{
    match index_find(entries, key) {
        Some(i) => {
            let e = entries.remove(i);
            proof {
                lemma_index_map_remove(old(entries)@, i as int);
            }
            Some(e.pos.len)
        },
        None => {
            proof {
                assert(index_map_of(entries@).remove(key@) =~= index_map_of(entries@));
            }
            None
        },
    }
}

impl KvStore {
    /// Append one encoded record to the active log, advance the writer, and
    /// queue the append for the host.  The caller updates the index.
    fn append_active(&mut self, rec: &crate::codec::Record) -> (start: usize)
        requires
            old(self).wf(),
        ensures
            final(self).index == old(self).index,
            final(self).current_gen == old(self).current_gen,
            final(self).uncompacted == old(self).uncompacted,
            final(self).files@.len() == old(self).files@.len(),
            forall|i: int| 0 <= i < old(self).files@.len() - 1 ==> final(self).files@[i] == old(
                self,
            ).files@[i],
            final(self).files@.last().gen == old(self).current_gen,
            final(self).files@.last().content@ == old(self).files@.last().content@ + enc_rec(
                rec@,
            ),
            final(self).files@.last().read_pos == old(self).files@.last().read_pos,
            files_wf(final(self).files@),
            crate::logfile::fully_framed(final(self).files@.last().content@),
            start == old(self).writer_pos,
            final(self).writer_pos == start + enc_rec(rec@).len(),
            final(self).pending@.len() == old(self).pending@.len() + 1,
            final(self).pending@.subrange(0, old(self).pending@.len() as int) == old(
                self,
            ).pending@,
            (final(self).pending@.last() matches FsOp::AppendLog { gen, text } && gen == old(
                self,
            ).current_gen && text@ == enc_rec(rec@)),
            replay_files(final(self).files@).0 == rec_step(
                replay_files(old(self).files@).0,
                replay_files(old(self).files@).1,
                old(self).current_gen,
                PosRec {
                    rec: rec@,
                    start: start as int,
                    end: start as int + enc_rec(rec@).len() as int,
                },
            ).0,
    {
        let line = crate::codec::encode_record(rec);
        let start = self.writer_pos;
        let mut f = match self.files.pop() {
            Some(f) => f,
            None => {
                proof {
                    assert(false);
                }
                LogFile::new(0)
            },
        };
        f.append_text(&line);
        self.writer_pos = f.content.len();
        self.files.push(f);
        self.pending.push(
            FsOp::AppendLog { gen: self.current_gen, text: crate::strutil::string_of(&line) },
        );
        proof {
            assert(self.pending@.subrange(0, old(self).pending@.len() as int) =~= old(
                self,
            ).pending@);
            let ofs = old(self).files@;
            let nfs = self.files@;
            let oc = ofs.last().content@;
            assert(nfs.drop_last() =~= ofs.drop_last());
            assert(nfs.last().content@ == oc + enc_rec(rec@));
            crate::logfile::lemma_log_append(oc, rec@);
            let pr = PosRec {
                rec: rec@,
                start: start as int,
                end: start as int + enc_rec(rec@).len() as int,
            };
            assert(log_parse(nfs.last().content@).recs == log_parse(oc).recs.push(pr));
            let p = replay_files(ofs.drop_last());
            lemma_replay_recs_snoc(p.0, p.1, old(self).current_gen, log_parse(oc).recs, pr);
            assert(replay_files(ofs) == replay_recs(
                p.0,
                p.1,
                ofs.last().gen,
                log_parse(oc).recs,
            ));
            assert(replay_files(nfs) == replay_recs(
                p.0,
                p.1,
                nfs.last().gen,
                log_parse(nfs.last().content@).recs,
            ));
            assert(files_wf(nfs)) by {
                assert(forall|i: int| 0 <= i < nfs.len() - 1 ==> nfs[i] == ofs[i]);
            }
        }
        start
    }

    /// Remove a key.  On a key that is not present the store is unchanged
    /// and the error is `KeyNotFound`; otherwise a tombstone record is
    /// appended, flushed, and the key leaves the index.
    #[verifier::rlimit(100)]
    #[verifier::spinoff_prover]
    pub fn remove(&mut self, key: String) -> (r: Result<(), crate::errors::KvsError>)
        requires
            old(self).wf(),
        ensures
            final(self).wf(),
            old(self)@.contains_key(key@) ==> r is Ok && final(self)@ == old(self)@.remove(key@),
            !old(self)@.contains_key(key@) ==> (r matches Err(
                crate::errors::KvsError::KeyNotFound,
            )) && *final(self) == *old(self),
            r is Ok ==> ({
                let line = enc_rec(RecordView::Remove { key: key@ });
                &&& final(self).current_gen == old(self).current_gen
                &&& final(self).uncompacted == old(self).uncompacted
                &&& final(self).files@.len() == old(self).files@.len()
                &&& (forall|i: int| 0 <= i < old(self).files@.len() - 1 ==> final(self).files@[i]
                    == old(self).files@[i])
                &&& final(self).files@.last().gen == old(self).current_gen
                &&& final(self).files@.last().read_pos == old(self).files@.last().read_pos
                &&& final(self).files@.last().content@ == old(self).files@.last().content@ + line
                &&& final(self).writer_pos == old(self).writer_pos + line.len()
                &&& index_map_of(final(self).index@) == index_map_of(old(self).index@).remove(
                    key@,
                )
                &&& final(self).pending@.len() == old(self).pending@.len() + 1
                &&& final(self).pending@.subrange(0, old(self).pending@.len() as int) == old(
                    self,
                ).pending@
                &&& (final(self).pending@.last() matches FsOp::AppendLog { gen, text } && gen
                    == old(self).current_gen && text@ == line)
            }),
    {
        proof {
            assert(old(self)@.contains_key(key@) == index_map_of(old(self).index@).contains_key(
                key@,
            ));
        }
        match index_find(&self.index, &key) {
            None => Err(crate::errors::KvsError::KeyNotFound),
            Some(_) => {
                let ghost m0 = index_map_of(old(self).index@);
                let rec = crate::codec::Record::Remove { key: key.clone() };
                let start = self.append_active(&rec);
                index_remove(&mut self.index, &key);
                proof {
                    let pr = PosRec {
                        rec: rec@,
                        start: start as int,
                        end: start as int + enc_rec(rec@).len() as int,
                    };
                    assert(index_map_of(self.index@) == rec_step(
                        m0,
                        replay_files(old(self).files@).1,
                        old(self).current_gen,
                        pr,
                    ).0);
                    Self::lemma_wf_after_op(*old(self), *self, pr);
                    lemma_map_values_remove(m0, key@);
                }
                Ok(())
            },
        }
    }

    /// Index entries stay located as long as no log loses text and no file
    /// changes generation: logs only grow, and reads only move cursors.
    proof fn lemma_located_after_append(self, old_self: KvStore)
        requires
            old_self.entries_located(),
            self.files@.len() == old_self.files@.len(),
            forall|i: int| 0 <= i < old_self.files@.len() ==> (#[trigger] self.files@[i]).gen
                == old_self.files@[i].gen && old_self.files@[i].content@.is_prefix_of(
                self.files@[i].content@,
            ),
            forall|k: Seq<char>| #[trigger] index_map_of(self.index@).contains_key(k) ==>
                index_map_of(old_self.index@).contains_key(k) && index_map_of(self.index@)[k]
                == index_map_of(old_self.index@)[k],
        ensures
            self.entries_located(),
    {
        assert forall|k: Seq<char>| #[trigger] index_map_of(self.index@).contains_key(
            k,
        ) implies {
            let e = index_map_of(self.index@)[k];
            exists|i: int|
                {
                    &&& 0 <= i < self.files@.len()
                    &&& (#[trigger] self.files@[i]).gen == e.gen
                    &&& 0 <= e.pos
                    &&& e.pos + e.len <= self.files@[i].content@.len()
                    &&& e.len == enc_rec(RecordView::Put { key: k, value: e.val }).len()
                    &&& self.files@[i].content@.subrange(e.pos, e.pos + e.len) == enc_rec(
                        RecordView::Put { key: k, value: e.val },
                    )
                }
        } by {
            let e = index_map_of(self.index@)[k];
            assert(index_map_of(old_self.index@).contains_key(k));
            let i0 = choose|i: int|
                {
                    &&& 0 <= i < old_self.files@.len()
                    &&& (#[trigger] old_self.files@[i]).gen == e.gen
                    &&& 0 <= e.pos
                    &&& e.pos + e.len <= old_self.files@[i].content@.len()
                    &&& e.len == enc_rec(RecordView::Put { key: k, value: e.val }).len()
                    &&& old_self.files@[i].content@.subrange(e.pos, e.pos + e.len) == enc_rec(
                        RecordView::Put { key: k, value: e.val },
                    )
                };
            let oc = old_self.files@[i0].content@;
            let nc = self.files@[i0].content@;
            assert(nc.subrange(e.pos, e.pos + e.len) =~= oc.subrange(e.pos, e.pos + e.len));
            assert(self.files@[i0].gen == e.gen);
        }
    }
}


impl KvStore {
    /// Restore the store invariant after one record has been appended to the
    /// active log and the matching index update has been applied.
    #[verifier::rlimit(100)]
    #[verifier::spinoff_prover]
    proof fn lemma_wf_after_op(old_self: KvStore, new_self: KvStore, pr: PosRec)
        requires
            old_self.wf(),
            new_self.files@.len() == old_self.files@.len(),
            forall|i: int| 0 <= i < old_self.files@.len() - 1 ==> new_self.files@[i]
                == old_self.files@[i],
            new_self.files@.last().gen == old_self.current_gen,
            new_self.files@.last().content@ == old_self.files@.last().content@ + enc_rec(pr.rec),
            files_wf(new_self.files@),
            crate::logfile::fully_framed(new_self.files@.last().content@),
            new_self.current_gen == old_self.current_gen,
            new_self.writer_pos == new_self.files@.last().content@.len(),
            pr.start == old_self.files@.last().content@.len(),
            pr.end == pr.start + enc_rec(pr.rec).len(),
            keys_distinct(new_self.index@),
            index_map_of(new_self.index@) == rec_step(
                index_map_of(old_self.index@),
                replay_files(old_self.files@).1,
                old_self.current_gen,
                pr,
            ).0,
            replay_files(new_self.files@).0 == rec_step(
                replay_files(old_self.files@).0,
                replay_files(old_self.files@).1,
                old_self.current_gen,
                pr,
            ).0,
        ensures
            new_self.wf(),
    {
        assert(new_self.files@.len() >= 1);
        assert(index_map_of(new_self.index@) == replay_files(new_self.files@).0);
        assert forall|i: int| 0 <= i < new_self.files@.len() implies crate::logfile::log_parse(
            (#[trigger] new_self.files@[i]).content@,
        ).tail != crate::logfile::LogTail::Malformed by {
            if i < new_self.files@.len() - 1 {
                assert(new_self.files@[i] == old_self.files@[i]);
            }
        }
        let om = index_map_of(old_self.index@);
        let oc = old_self.files@.last().content@;
        let nc = new_self.files@.last().content@;
        let nm = index_map_of(new_self.index@);
        assert forall|i: int| 0 <= i < new_self.files@.len() implies (
        #[trigger] new_self.files@[i]).gen == old_self.files@[i].gen
            && old_self.files@[i].content@.is_prefix_of(new_self.files@[i].content@) by {
            if i < new_self.files@.len() - 1 {
                assert(new_self.files@[i] == old_self.files@[i]);
                assert(old_self.files@[i].content@.is_prefix_of(old_self.files@[i].content@));
            } else {
                assert(oc.is_prefix_of(nc));
            }
        }
        match pr.rec {
            RecordView::Put { key, value } => {
                let e_new = EntryV {
                    gen: old_self.current_gen,
                    pos: pr.start,
                    len: pr.end - pr.start,
                    val: value,
                };
                assert(nm == om.insert(key, e_new));
                let shrunk = KvStore { index: new_self.index, ..old_self };
                assert(index_map_of(shrunk.index@) == nm);
                assert forall|k: Seq<char>| #[trigger] nm.contains_key(k) implies {
                    let e = nm[k];
                    exists|i: int|
                        {
                            &&& 0 <= i < new_self.files@.len()
                            &&& (#[trigger] new_self.files@[i]).gen == e.gen
                            &&& 0 <= e.pos
                            &&& e.pos + e.len <= new_self.files@[i].content@.len()
                            &&& e.len == enc_rec(RecordView::Put { key: k, value: e.val }).len()
                            &&& new_self.files@[i].content@.subrange(e.pos, e.pos + e.len)
                                == enc_rec(RecordView::Put { key: k, value: e.val })
                        }
                } by {
                    let e = nm[k];
                    if k == key {
                        let li = new_self.files@.len() - 1;
                        assert(new_self.files@[li].gen == e.gen);
                        assert(nc.subrange(pr.start, pr.end) =~= enc_rec(pr.rec));
                    } else {
                        assert(om.contains_key(k) && om[k] == e);
                        let i0 = choose|i: int|
                            {
                                &&& 0 <= i < old_self.files@.len()
                                &&& (#[trigger] old_self.files@[i]).gen == e.gen
                                &&& 0 <= e.pos
                                &&& e.pos + e.len <= old_self.files@[i].content@.len()
                                &&& e.len == enc_rec(
                                    RecordView::Put { key: k, value: e.val },
                                ).len()
                                &&& old_self.files@[i].content@.subrange(e.pos, e.pos + e.len)
                                    == enc_rec(RecordView::Put { key: k, value: e.val })
                            };
                        assert(new_self.files@[i0].content@.subrange(e.pos, e.pos + e.len)
                            =~= old_self.files@[i0].content@.subrange(e.pos, e.pos + e.len));
                    }
                }
            },
            RecordView::Remove { key } => {
                assert(nm == om.remove(key));
                assert forall|k: Seq<char>| #[trigger] nm.contains_key(k) implies om.contains_key(
                    k,
                ) && nm[k] == om[k] by {}
                new_self.lemma_located_after_append(old_self);
            },
        }
    }
}

impl KvStore {
    /// Look a key up.  An absent key yields `Ok(None)`; a present key yields
    /// the value of its latest `Set` record, read back from the log at the
    /// indexed position.  The store's contents are unchanged; only a read
    /// cursor moves.
    #[verifier::rlimit(100)]
    pub fn get(&mut self, key: String) -> (r: Result<Option<String>, crate::errors::KvsError>)
        requires
            old(self).wf(),
        ensures
            final(self).wf(),
            final(self)@ == old(self)@,
            final(self).index == old(self).index,
            final(self).current_gen == old(self).current_gen,
            final(self).uncompacted == old(self).uncompacted,
            final(self).writer_pos == old(self).writer_pos,
            final(self).pending == old(self).pending,
            final(self).files@.len() == old(self).files@.len(),
            forall|i: int| 0 <= i < old(self).files@.len()
                ==> (#[trigger] final(self).files@[i]).gen == old(self).files@[i].gen
                && final(self).files@[i].content@ == old(self).files@[i].content@,
            match r {
                Ok(Some(v)) => old(self)@.contains_key(key@) && v@ == old(self)@[key@],
                Ok(None) => !old(self)@.contains_key(key@),
                Err(_) => false,
            },
    {
        proof {
            assert(old(self)@.contains_key(key@) == index_map_of(old(self).index@).contains_key(
                key@,
            ));
        }
        match index_find(&self.index, &key) {
            None => Ok(None),
            Some(i) => {
                let p = self.index[i].pos;
                let ghost vv = self.index@[i as int].val@;
                let ghost e = index_map_of(self.index@)[key@];
                let ghost enc = enc_rec(RecordView::Put { key: key@, value: vv });
                proof {
                    assert(e == entry_v(self.index@[i as int]));
                }
                let fi = find_file(&self.files, p.gen);
                let ghost i0 = choose|j: int|
                    {
                        &&& 0 <= j < self.files@.len()
                        &&& (#[trigger] self.files@[j]).gen == e.gen
                        &&& 0 <= e.pos
                        &&& e.pos + e.len <= self.files@[j].content@.len()
                        &&& e.len == enc_rec(RecordView::Put { key: key@, value: e.val }).len()
                        &&& self.files@[j].content@.subrange(e.pos, e.pos + e.len) == enc_rec(
                            RecordView::Put { key: key@, value: e.val },
                        )
                    };
                proof {
                    assert(self.files@[fi as int].gen == self.files@[i0].gen);
                    if fi as int != i0 {
                        assert(false);
                    }
                }
                let mut f = self.files.remove(fi);
                f.seek_to(p.pos);
                let line = f.read_line();
                proof {
                    crate::codec::lemma_enc_newline(RecordView::Put { key: key@, value: vv });
                    assert(f.content@.subrange(p.pos as int, p.pos + p.len) == enc);
                    assert(forall|j: int| p.pos <= j < p.pos + p.len - 1 ==> f.content@[j] == enc[
                        j - p.pos
                    ] && f.content@[j] != '\n');
                    assert(f.content@[p.pos + p.len - 1] == enc[p.len - 1]);
                    crate::logfile::lemma_line_end_of_record(
                        f.content@,
                        p.pos as int,
                        p.pos + p.len,
                    );
                }
                self.files.insert(fi, f);
                proof {
                    let ofs = old(self).files@;
                    let nfs = self.files@;
                    assert(nfs.len() == ofs.len());
                    assert forall|j: int| 0 <= j < nfs.len() implies (#[trigger] nfs[j]).gen
                        == ofs[j].gen && nfs[j].content@ == ofs[j].content@ && nfs[j].read_pos
                        <= nfs[j].content@.len() by {
                        if j < fi {
                            assert(nfs[j] == ofs[j]);
                        } else if j > fi {
                            assert(nfs[j] == ofs[j]);
                        }
                    }
                    lemma_replay_files_congruence(nfs, ofs);
                    assert(files_wf(nfs));
                    assert(nfs.last().gen == ofs.last().gen && nfs.last().content@
                        == ofs.last().content@);
                    assert(self.entries_located()) by {
                        assert(forall|i: int| 0 <= i < nfs.len() ==> (
                        #[trigger] ofs[i].content@).is_prefix_of(nfs[i].content@));
                        self.lemma_located_after_append(*old(self));
                    }
                    assert(line@ =~= enc);
                    assert(line@.subrange(0, enc.len() as int) =~= enc);
                    crate::codec::lemma_rec_complete(
                        line@,
                        0,
                        RecordView::Put { key: key@, value: vv },
                    );
                }
                let dec = crate::codec::decode_rec(&line, 0);
                match dec {
                    crate::codec::DecodeOut::Parsed(rec, _end) => {
                        match rec {
                            crate::codec::Record::Put { key: _k, value } => {
                                proof {
                                    lemma_index_map_char(self.index@);
                                    assert(old(self)@[key@] == e.val);
                                }
                                Ok(Some(value))
                            },
                            crate::codec::Record::Remove { .. } => {
                                proof {
                                    assert(false);
                                }
                                Err(crate::errors::KvsError::Corruption(
                                    "a tombstone sits at an indexed offset".to_owned(),
                                ))
                            },
                        }
                    },
                    _ => {
                        proof {
                            assert(false);
                        }
                        Err(crate::errors::KvsError::Corruption(
                            "no record parses at an indexed offset".to_owned(),
                        ))
                    },
                }
            },
        }
    }
}

/// The total length of the records the index points at: what compaction
/// writes into its target file.
pub open spec fn entries_len(entries: Seq<IndexEntry>) -> int
    decreases entries.len(),
{
    if entries.len() == 0 {
        0
    } else {
        entries_len(entries.drop_last()) + entries.last().pos.len
    }
}


/// Two indexes whose entries have the same lengths cover the same bytes.
pub proof fn lemma_entries_len_congruence(a: Seq<IndexEntry>, b: Seq<IndexEntry>)
    requires
        a.len() == b.len(),
        forall|j: int| 0 <= j < a.len() ==> (#[trigger] a[j]).pos.len == b[j].pos.len,
    ensures
        entries_len(a) == entries_len(b),
    decreases a.len(),
{
    if a.len() > 0 {
        assert(forall|j: int| 0 <= j < a.len() - 1 ==> (#[trigger] a.drop_last()[j]) == a[j]
            && b.drop_last()[j] == b[j]);
        lemma_entries_len_congruence(a.drop_last(), b.drop_last());
    }
}

impl KvStore {
    /// Rewrite the live records into a fresh generation `C = active + 1`,
    /// point the index at it, make `N = active + 2` the new active
    /// generation, and drop every older file.  The observable contents are
    /// unchanged; the garbage counter returns to zero; afterwards exactly
    /// two generations exist, and the compacted file holds exactly the live
    /// records.
    #[verifier::rlimit(100)]
    pub fn compact(&mut self) -> (r: Result<(), crate::errors::KvsError>)
        requires
            old(self).wf(),
        ensures
            final(self).wf(),
            final(self)@ == old(self)@,
            r is Ok <==> old(self).current_gen <= u64::MAX - 2,
            r is Err ==> *final(self) == *old(self),
            r is Ok ==> {
                &&& final(self).files@.len() == 2
                &&& final(self).files@[0].gen == old(self).current_gen + 1
                &&& final(self).files@[1].gen == old(self).current_gen + 2
                &&& final(self).current_gen == old(self).current_gen + 2
                &&& final(self).uncompacted == 0
                &&& final(self).files@[1].content@.len() == 0
                &&& final(self).files@[0].content@.len() == entries_len(final(self).index@)
            },
            r is Ok ==> ({
                let base = old(self).pending@.len() as int;
                &&& final(self).pending@.len() == base + 3 + old(self).files@.len()
                &&& final(self).pending@.subrange(0, base) == old(self).pending@
                &&& final(self).pending@[base] == (FsOp::CreateLog {
                    gen: (old(self).current_gen + 2) as u64,
                })
                &&& final(self).pending@[base + 1] == (FsOp::CreateLog {
                    gen: (old(self).current_gen + 1) as u64,
                })
                &&& (final(self).pending@[base + 2] matches FsOp::AppendLog { gen, text } && gen
                    == old(self).current_gen + 1 && text@ == final(self).files@[0].content@)
                &&& (forall|k: int| 0 <= k < old(self).files@.len() ==> final(self).pending@[base
                    + 3 + k] == (FsOp::DeleteLog { gen: (#[trigger] old(self).files@[k]).gen }))
            }),
    {
        if self.current_gen > u64::MAX - 2 {
            return Err(crate::errors::KvsError::Other(
                "the generation counter is exhausted".to_owned(),
            ));
        }
        let compact_gen = self.current_gen + 1;
        let new_gen = self.current_gen + 2;
        let ghost o_index = self.index@;
        let ghost o_files = self.files@;
        let ghost o_map = index_map_of(o_index);
        proof {
            lemma_index_map_char(o_index);
        }
        let mut cfile = LogFile::new(compact_gen);
        let mut new_index: Vec<IndexEntry> = Vec::new();
        let n = self.index.len();
        let mut i: usize = 0;
        while i < n
            invariant
                0 <= i <= n == o_index.len(),
                self.index@ == o_index,
                self.current_gen == old(self).current_gen,
                compact_gen == self.current_gen + 1,
                new_gen == self.current_gen + 2,
                self.current_gen <= u64::MAX - 2,
                keys_distinct(o_index),
                files_wf(o_files),
                old(self).entries_located(),
                o_index == old(self).index@,
                o_files == old(self).files@,
                o_map == index_map_of(o_index),
                self.pending@ == old(self).pending@,
                self.files@.len() == o_files.len(),
                forall|j: int| 0 <= j < o_files.len() ==> (#[trigger] self.files@[j]).gen
                    == o_files[j].gen && self.files@[j].content@ == o_files[j].content@
                    && self.files@[j].read_pos <= self.files@[j].content@.len(),
                cfile.gen == compact_gen,
                cfile.read_pos == 0,
                crate::logfile::fully_framed(cfile.content@),
                new_index@.len() == i,
                keys_distinct(new_index@),
                forall|j: int| 0 <= j < i ==> (#[trigger] new_index@[j]).key@ == o_index[j].key@
                    && new_index@[j].val@ == o_index[j].val@ && new_index@[j].pos.gen == compact_gen
                    && new_index@[j].pos.len == o_index[j].pos.len,
                index_map_of(new_index@) == replay_recs(
                    Map::<Seq<char>, EntryV>::empty(),
                    0,
                    compact_gen,
                    log_parse(cfile.content@).recs,
                ).0,
                forall|j: int| 0 <= j < i ==> {
                    let ne = #[trigger] new_index@[j];
                    &&& ne.pos.pos + ne.pos.len <= cfile.content@.len()
                    &&& ne.pos.len as int == enc_rec(
                        RecordView::Put { key: ne.key@, value: ne.val@ },
                    ).len()
                    &&& cfile.content@.subrange(
                        ne.pos.pos as int,
                        ne.pos.pos + ne.pos.len,
                    ) == enc_rec(RecordView::Put { key: ne.key@, value: ne.val@ })
                },
                cfile.content@.len() == entries_len(o_index.subrange(0, i as int)),
            decreases n - i,
        {
            let e_key = self.index[i].key.clone();
            let e_pos = self.index[i].pos;
            let ghost e_val = self.index@[i as int].val@;
            let ghost k = e_key@;
            let ghost e = index_map_of(o_index)[k];
            let ghost enc = enc_rec(RecordView::Put { key: k, value: e_val });
            proof {
                lemma_index_map_char(o_index);
                assert(o_map.contains_key(k) && o_map[k] == entry_v(o_index[i as int]));
                assert(e == entry_v(o_index[i as int]));
                assert(e.val == e_val);
            }
            let ghost i0 = choose|j: int|
                {
                    &&& 0 <= j < old(self).files@.len()
                    &&& (#[trigger] old(self).files@[j]).gen == e.gen
                    &&& 0 <= e.pos
                    &&& e.pos + e.len <= old(self).files@[j].content@.len()
                    &&& e.len == enc_rec(RecordView::Put { key: k, value: e.val }).len()
                    &&& old(self).files@[j].content@.subrange(e.pos, e.pos + e.len) == enc_rec(
                        RecordView::Put { key: k, value: e.val },
                    )
                };
            proof {
                assert(self.files@[i0].gen == e.gen);
            }
            let fi = find_file(&self.files, e_pos.gen);
            proof {
                assert(self.files@[fi as int].gen == self.files@[i0].gen);
                if fi as int != i0 {
                    assert(false);
                }
            }
            let ghost pfs = self.files@;
            let mut f = self.files.remove(fi);
            if f.read_pos != e_pos.pos {
                f.seek_to(e_pos.pos);
            }
            let line = f.read_line();
            proof {
                crate::codec::lemma_enc_newline(RecordView::Put { key: k, value: e_val });
                assert(f.content@.subrange(e_pos.pos as int, e_pos.pos + e_pos.len) == enc);
                assert(forall|j: int| e_pos.pos <= j < e_pos.pos + e_pos.len - 1 ==> f.content@[j]
                    == enc[j - e_pos.pos] && f.content@[j] != '\n');
                assert(f.content@[e_pos.pos + e_pos.len - 1] == enc[e_pos.len - 1]);
                crate::logfile::lemma_line_end_of_record(
                    f.content@,
                    e_pos.pos as int,
                    e_pos.pos + e_pos.len,
                );
            }
            self.files.insert(fi, f);
            proof {
                let nfs = self.files@;
                assert forall|j: int| 0 <= j < nfs.len() implies (#[trigger] nfs[j]).gen
                    == o_files[j].gen && nfs[j].content@ == o_files[j].content@
                    && nfs[j].read_pos <= nfs[j].content@.len() by {
                    if j < fi {
                        assert(nfs[j] == pfs[j]);
                    } else if j > fi {
                        assert(nfs[j] == pfs[j]);
                    }
                }
                assert(line@ =~= enc);
            }
            let start = cfile.content.len();
            let ghost c_old = cfile.content@;
            cfile.append_text(&line);
            let ghost pr = PosRec {
                rec: RecordView::Put { key: k, value: e_val },
                start: start as int,
                end: start as int + enc.len() as int,
            };
            proof {
                crate::logfile::lemma_log_append(c_old, RecordView::Put { key: k, value: e_val });
                lemma_replay_recs_snoc(
                    Map::<Seq<char>, EntryV>::empty(),
                    0,
                    compact_gen,
                    log_parse(c_old).recs,
                    pr,
                );
            }
            let ghost pre_index = new_index@;
            new_index.push(
                IndexEntry {
                    key: e_key,
                    pos: IndexPos { gen: compact_gen, pos: start, len: e_pos.len },
                    val: Ghost(e_val),
                },
            );
            proof {
                assert(new_index@.drop_last() =~= pre_index);
                assert(keys_distinct(new_index@)) by {
                    assert(forall|a: int, b: int| 0 <= a < b < i + 1 ==> o_index[a].key@
                        != o_index[b].key@);
                    assert(forall|j: int| 0 <= j < i ==> (#[trigger] new_index@[j]) == pre_index[
                        j
                    ]);
                }
                assert(o_index.subrange(0, i + 1).drop_last() =~= o_index.subrange(0, i as int));
                assert(o_index.subrange(0, i + 1).last() == o_index[i as int]);
                assert(cfile.content@.subrange(start as int, start + enc.len()) =~= enc);
                assert forall|j: int| 0 <= j < i implies {
                    let ne = #[trigger] new_index@[j];
                    &&& ne.pos.pos + ne.pos.len <= cfile.content@.len()
                    &&& ne.pos.len as int == enc_rec(
                        RecordView::Put { key: ne.key@, value: ne.val@ },
                    ).len()
                    &&& cfile.content@.subrange(
                        ne.pos.pos as int,
                        ne.pos.pos + ne.pos.len,
                    ) == enc_rec(RecordView::Put { key: ne.key@, value: ne.val@ })
                } by {
                    let ne = new_index@[j];
                    assert(ne == pre_index[j]);
                    assert(cfile.content@.subrange(ne.pos.pos as int, ne.pos.pos + ne.pos.len)
                        =~= c_old.subrange(ne.pos.pos as int, ne.pos.pos + ne.pos.len));
                }
            }
            i = i + 1;
        }
        // install the new state
        let nfile = LogFile::new(new_gen);
        let ghost pend0 = self.pending@;
        let copied = crate::strutil::string_of(&cfile.content);
        self.pending.push(FsOp::CreateLog { gen: new_gen });
        self.pending.push(FsOp::CreateLog { gen: compact_gen });
        self.pending.push(FsOp::AppendLog { gen: compact_gen, text: copied });
        proof {
            assert(self.pending@.len() == pend0.len() + 3);
            assert(self.pending@.subrange(0, pend0.len() as int) =~= pend0);
            assert(self.pending@[pend0.len() as int] == (FsOp::CreateLog { gen: new_gen }));
            assert(self.pending@[pend0.len() as int + 1] == (FsOp::CreateLog { gen: compact_gen }));
            assert((self.pending@[pend0.len() as int + 2] matches FsOp::AppendLog { gen, text }
                && gen == compact_gen && text@ == cfile.content@));
        }
        let olds = self.generations();
        let ghost pre3 = self.pending@;
        let ghost base = old(self).pending@.len() as int;
        proof {
            assert(pre3.subrange(0, base) =~= old(self).pending@);
        }
        let mut d: usize = 0;
        while d < olds.len()
            invariant
                self.index@ == o_index,
                0 <= d <= olds@.len() == o_files.len(),
                forall|k: int| 0 <= k < olds@.len() ==> olds@[k] == o_files[k].gen,
                o_files == old(self).files@,
                base == old(self).pending@.len() as int,
                pre3.len() == base + 3,
                pre3.subrange(0, base) == old(self).pending@,
                self.pending@.len() == pre3.len() + d,
                self.pending@.subrange(0, pre3.len() as int) == pre3,
                forall|k: int| 0 <= k < d ==> self.pending@[pre3.len() + k] == (FsOp::DeleteLog {
                    gen: (#[trigger] o_files[k]).gen,
                }),
            decreases olds@.len() - d,
        {
            let ghost prev = self.pending@;
            self.pending.push(FsOp::DeleteLog { gen: olds[d] });
            proof {
                assert(self.pending@.subrange(0, pre3.len() as int) =~= pre3);
            }
            d = d + 1;
        }
        proof {
            assert(self.pending@.subrange(0, base) =~= old(self).pending@);
            assert(self.pending@[base] == pre3[base]);
            assert(self.pending@[base + 1] == pre3[base + 1]);
            assert(self.pending@[base + 2] == pre3[base + 2]);
        }
        let ghost c_content = cfile.content@;
        let mut nf: Vec<LogFile> = Vec::new();
        nf.push(cfile);
        nf.push(nfile);
        self.files = nf;
        self.index = new_index;
        self.current_gen = new_gen;
        self.writer_pos = 0;
        self.uncompacted = 0;
        proof {
            let fs = self.files@;
            assert(fs.len() == 2);
            assert(fs[0].gen == compact_gen && fs[1].gen == new_gen);
            crate::logfile::lemma_empty_framed();
            assert(forall|i: int| 0 <= i < fs.len() ==> crate::logfile::log_parse(
                (#[trigger] fs[i]).content@,
            ).tail != crate::logfile::LogTail::Malformed);
            // replay of the two new files equals the rebuilt index
            assert(fs.drop_last().drop_last() =~= Seq::<LogFile>::empty());
            assert(replay_files(Seq::<LogFile>::empty()) == (
                Map::<Seq<char>, EntryV>::empty(),
                0int,
            ));
            assert(fs.drop_last().last() == fs[0]);
            assert(fs[1].content@ =~= Seq::<char>::empty());
            assert(log_parse(fs[1].content@).recs =~= Seq::<PosRec>::empty());
            assert(replay_files(fs).0 == replay_files(fs.drop_last()).0);
            assert(index_map_of(self.index@) == replay_files(fs).0);
            // the observable map is unchanged
            lemma_index_map_char(self.index@);
            assert(o_index.subrange(0, o_index.len() as int) =~= o_index);
            lemma_entries_len_congruence(self.index@, o_index);
            assert forall|k: Seq<char>| #[trigger] index_map_of(self.index@).contains_key(k)
                implies o_map.contains_key(k) && index_map_of(self.index@)[k].val == o_map[k].val
                 by {
                let j = choose|j: int|
                    0 <= j < self.index@.len() && #[trigger] self.index@[j].key@ == k;
                assert(index_map_of(self.index@)[k] == entry_v(self.index@[j]));
                assert(o_map[k] == entry_v(o_index[j]));
            }
            assert forall|k: Seq<char>| #[trigger] o_map.contains_key(k) implies index_map_of(
                self.index@,
            ).contains_key(k) by {
                let j = choose|j: int| 0 <= j < o_index.len() && #[trigger] o_index[j].key@ == k;
                assert(self.index@[j].key@ == k);
            }
            assert(self@ =~= old(self)@);
            // entries are located in the compacted file
            assert forall|k: Seq<char>| #[trigger] index_map_of(self.index@).contains_key(
                k,
            ) implies {
                let e = index_map_of(self.index@)[k];
                exists|i: int|
                    {
                        &&& 0 <= i < fs.len()
                        &&& (#[trigger] fs[i]).gen == e.gen
                        &&& 0 <= e.pos
                        &&& e.pos + e.len <= fs[i].content@.len()
                        &&& e.len == enc_rec(RecordView::Put { key: k, value: e.val }).len()
                        &&& fs[i].content@.subrange(e.pos, e.pos + e.len) == enc_rec(
                            RecordView::Put { key: k, value: e.val },
                        )
                    }
            } by {
                let j = choose|j: int|
                    0 <= j < self.index@.len() && #[trigger] self.index@[j].key@ == k;
                let e = index_map_of(self.index@)[k];
                assert(e == entry_v(self.index@[j]));
                assert(fs[0].gen == e.gen);
                assert(fs[0].content@ == c_content);
            }
        }
        Ok(())
    }
}


impl KvStore {
    /// The counter value after this `set` supersedes any old entry for
    /// `key`: grown by the superseded record's length.
    pub open spec fn grown_uncompacted(self, key: Seq<char>) -> int {
        if index_map_of(self.index@).contains_key(key) {
            sadd(self.uncompacted as int, index_map_of(self.index@)[key].len)
        } else {
            self.uncompacted as int
        }
    }

    /// Does a `set` of `key` push the superseded bytes past the threshold
    /// and so trigger compaction?
    pub open spec fn set_compacts(self, key: Seq<char>) -> bool {
        self.grown_uncompacted(key) > crate::COMPACTION_THRESHOLD as int
    }

    /// The one way a `set` can fail: it would compact, and the generation
    /// counter is exhausted.
    pub open spec fn set_exhausted(self, key: Seq<char>) -> bool {
        self.set_compacts(key) && self.current_gen > u64::MAX - 2
    }
}

impl KvStore {
    /// Bind a key to a value.  The record is appended to the active log and
    /// flushed, the index points at it, and if the superseded bytes exceed
    /// [`crate::COMPACTION_THRESHOLD`] the store is compacted.  The one
    /// error is an exhausted generation counter where compaction would run;
    /// it is detected before anything is written, so a failed `set` leaves
    /// the store untouched and the caller may retry.
    #[verifier::rlimit(100)]
    #[verifier::spinoff_prover]
    pub fn set(&mut self, key: String, value: String) -> (r: Result<(), crate::errors::KvsError>)
        requires
            old(self).wf(),
        ensures
            final(self).wf(),
            r is Ok <==> !old(self).set_exhausted(key@),
            r is Err ==> *final(self) == *old(self),
            r is Ok ==> final(self)@ == old(self)@.insert(key@, value@),
            r is Ok && !old(self).set_compacts(key@) ==> ({
                let line = enc_rec(RecordView::Put { key: key@, value: value@ });
                &&& final(self).current_gen == old(self).current_gen
                &&& final(self).uncompacted as int == old(self).grown_uncompacted(key@)
                &&& final(self).files@.len() == old(self).files@.len()
                &&& (forall|i: int| 0 <= i < old(self).files@.len() - 1 ==> final(self).files@[i]
                    == old(self).files@[i])
                &&& final(self).files@.last().gen == old(self).current_gen
                &&& final(self).files@.last().read_pos == old(self).files@.last().read_pos
                &&& final(self).files@.last().content@ == old(self).files@.last().content@ + line
                &&& final(self).writer_pos == old(self).writer_pos + line.len()
                &&& index_map_of(final(self).index@) == index_map_of(old(self).index@).insert(
                    key@,
                    EntryV {
                        gen: old(self).current_gen,
                        pos: old(self).writer_pos as int,
                        len: line.len() as int,
                        val: value@,
                    },
                )
                &&& final(self).pending@.len() == old(self).pending@.len() + 1
                &&& final(self).pending@.subrange(0, old(self).pending@.len() as int) == old(
                    self,
                ).pending@
                &&& (final(self).pending@.last() matches FsOp::AppendLog { gen, text } && gen
                    == old(self).current_gen && text@ == line)
            }),
            r is Ok && old(self).set_compacts(key@) ==> {
                &&& final(self).current_gen == old(self).current_gen + 2
                &&& final(self).uncompacted == 0
                &&& final(self).files@.len() == 2
                &&& final(self).files@[0].gen == old(self).current_gen + 1
                &&& final(self).files@[1].gen == old(self).current_gen + 2
                &&& final(self).files@[1].content@.len() == 0
            },
    {
        let ghost m0 = index_map_of(old(self).index@);
        // the only possible failure is found before anything is written
        let projected: u64 = match index_find(&self.index, &key) {
            Some(i) => sat_add(self.uncompacted, self.index[i].pos.len as u64),
            None => self.uncompacted,
        };
        proof {
            assert(projected as int == old(self).grown_uncompacted(key@));
        }
        if projected > crate::COMPACTION_THRESHOLD && self.current_gen > u64::MAX - 2 {
            return Err(crate::errors::KvsError::Other(
                "the generation counter is exhausted".to_owned(),
            ));
        }
        let ghost vv = value@;
        let rec = crate::codec::Record::Put { key: key.clone(), value };
        let start = self.append_active(&rec);
        let line_len = self.writer_pos - start;
        let pos = IndexPos { gen: self.current_gen, pos: start, len: line_len };
        let old_len = index_put(&mut self.index, key, pos, Ghost(vv));
        match old_len {
            Some(l) => {
                self.uncompacted = sat_add(self.uncompacted, l as u64);
            },
            None => {},
        }
        proof {
            let pr = PosRec {
                rec: rec@,
                start: start as int,
                end: start as int + enc_rec(rec@).len() as int,
            };
            assert(index_map_of(self.index@) == rec_step(
                m0,
                replay_files(old(self).files@).1,
                old(self).current_gen,
                pr,
            ).0);
            Self::lemma_wf_after_op(*old(self), *self, pr);
            lemma_map_values_insert(m0, pr.rec->Put_key, EntryV {
                gen: old(self).current_gen,
                pos: pr.start,
                len: pr.end - pr.start,
                val: vv,
            });
            assert(self.uncompacted == projected);
        }
        if self.uncompacted > crate::COMPACTION_THRESHOLD {
            match self.compact() {
                Ok(()) => Ok(()),
                Err(e) => {
                    proof {
                        assert(false);
                    }
                    Err(e)
                },
            }
        } else {
            Ok(())
        }
    }
}

/// Everything from `pos` on is whitespace.
fn ws_only_from(content: &Vec<char>, pos: usize) -> (r: bool)
    requires
        pos <= content@.len(),
    ensures
        r == crate::logfile::ws_only(content@, pos as int),
{
    let n = content.len();
    let mut i = pos;
    while i < n
        invariant
            pos <= i <= n == content@.len(),
            forall|j: int| pos <= j < i ==> crate::logfile::is_ws(content@[j]),
        decreases n - i,
    {
        let c = content[i];
        if !(c == ' ' || c == '\t' || c == '\n' || c == '\r') {
            return false;
        }
        i = i + 1;
    }
    true
}

/// Is an index entry located at a real record inside `content`?
pub open spec fn located_in(k: Seq<char>, e: EntryV, gen: u64, content: Seq<char>) -> bool {
    &&& e.gen == gen
    &&& 0 <= e.pos
    &&& e.pos + e.len <= content.len()
    &&& e.len == enc_rec(RecordView::Put { key: k, value: e.val }).len()
    &&& content.subrange(e.pos, e.pos + e.len) == enc_rec(RecordView::Put { key: k, value: e.val })
}


/// Every entry of `m_new` is either unchanged from `m_old` or located at a
/// real record of generation `gen` inside `content`.
pub open spec fn replay_located(
    m_old: Map<Seq<char>, EntryV>,
    m_new: Map<Seq<char>, EntryV>,
    gen: u64,
    content: Seq<char>,
) -> bool {
    forall|k: Seq<char>| #[trigger] m_new.contains_key(k) ==> {
        let e = m_new[k];
        (m_old.contains_key(k) && m_old[k] == e) || located_in(k, e, gen, content)
    }
}

/// Replay one log into the index.  Records are applied left to right; a
/// truncated trailing record or trailing whitespace ends the replay quietly;
/// malformed text is an encoding error.
#[verifier::rlimit(100)]
#[verifier::spinoff_prover]
fn replay_log_file(gen: u64, content: &Vec<char>, index: &mut Vec<IndexEntry>, garbage: u64) -> (res:
    Result<u64, crate::errors::KvsError>)
    requires
        keys_distinct(old(index)@),
    ensures
        keys_distinct(final(index)@),
        match res {
            Ok(g2) => {
                &&& index_map_of(final(index)@) == replay_recs(
                    index_map_of(old(index)@),
                    garbage as int,
                    gen,
                    log_parse(content@).recs,
                ).0
                &&& g2 as int == replay_recs(
                    index_map_of(old(index)@),
                    garbage as int,
                    gen,
                    log_parse(content@).recs,
                ).1
                &&& log_parse(content@).tail != crate::logfile::LogTail::Malformed
                &&& replay_located(
                    index_map_of(old(index)@),
                    index_map_of(final(index)@),
                    gen,
                    content@,
                )
            },
            Err(_) => log_parse(content@).tail == crate::logfile::LogTail::Malformed,
        },
{
    let ghost m0 = index_map_of(index@);
    let n = content.len();
    let mut pos: usize = 0;
    let mut garb: u64 = garbage;
    let ghost mut done: Seq<PosRec> = Seq::empty();
    loop
        invariant
            0 <= pos <= n == content@.len(),
            m0 == index_map_of(old(index)@),
            keys_distinct(index@),
            log_parse(content@).recs == done + crate::logfile::log_parse_at(
                content@,
                pos as int,
            ).recs,
            log_parse(content@).tail == crate::logfile::log_parse_at(content@, pos as int).tail,
            index_map_of(index@) == replay_recs(m0, garbage as int, gen, done).0,
            garb as int == replay_recs(m0, garbage as int, gen, done).1,
            replay_located(m0, index_map_of(index@), gen, content@),
        decreases n - pos,
    {
        if pos >= n {
            proof {
                assert(crate::logfile::log_parse_at(content@, pos as int).recs
                    =~= Seq::<PosRec>::empty());
                assert(done + crate::logfile::log_parse_at(content@, pos as int).recs =~= done);
            }
            return Ok(garb);
        }
        match crate::codec::decode_rec(content, pos) {
            crate::codec::DecodeOut::Parsed(rec, end) => {
                proof {
                    crate::codec::lemma_rec_sound(content@, pos as int);
                }
                let len = end - pos;
                let ghost pr = PosRec { rec: rec@, start: pos as int, end: end as int };
                let ghost m_pre = index_map_of(index@);
                proof {
                    assert(crate::logfile::log_parse_at(content@, pos as int).recs == seq![pr]
                        + crate::logfile::log_parse_at(content@, end as int).recs);
                    lemma_replay_recs_snoc(m0, garbage as int, gen, done, pr);
                }
                match rec {
                    crate::codec::Record::Put { key, value } => {
                        let ghost vv = value@;
                        let old_len = index_put(
                            index,
                            key,
                            IndexPos { gen, pos, len },
                            Ghost(vv),
                        );
                        if let Some(l) = old_len {
                            garb = sat_add(garb, l as u64);
                        }
                        proof {
                            assert(content@.subrange(pos as int, end as int) == enc_rec(pr.rec));
                        }
                    },
                    crate::codec::Record::Remove { key } => {
                        let old_len = index_remove(index, &key);
                        if let Some(l) = old_len {
                            garb = sat_add(garb, l as u64);
                        }
                        garb = sat_add(garb, len as u64);
                    },
                }
                proof {
                    done = done.push(pr);
                    assert(done + crate::logfile::log_parse_at(content@, end as int).recs
                        =~= done.drop_last() + (seq![pr] + crate::logfile::log_parse_at(
                        content@,
                        end as int,
                    ).recs));
                    assert(done.drop_last() =~= done.subrange(0, done.len() - 1));
                }
                pos = end;
            },
            crate::codec::DecodeOut::MoreNeeded => {
                proof {
                    assert(crate::logfile::log_parse_at(content@, pos as int).recs
                        =~= Seq::<PosRec>::empty());
                    assert(done + crate::logfile::log_parse_at(content@, pos as int).recs
                        =~= done);
                }
                return Ok(garb);
            },
            crate::codec::DecodeOut::Mismatch => {
                if ws_only_from(content, pos) {
                    proof {
                        assert(crate::logfile::log_parse_at(content@, pos as int).recs
                            =~= Seq::<PosRec>::empty());
                        assert(done + crate::logfile::log_parse_at(content@, pos as int).recs
                            =~= done);
                    }
                    return Ok(garb);
                }
                return Err(crate::errors::KvsError::Encoding(
                    "a log record is malformed".to_owned(),
                ));
            },
        }
    }
}



/// Every gathered file's generation and text come from a directory entry
/// whose name is that generation's log file name.
pub open spec fn files_from_entries(files: Seq<LogFile>, entries: Seq<DirEntry>) -> bool {
    forall|j: int| 0 <= j < files.len() ==> exists|t: int|
        0 <= t < entries.len() && crate::naming::name_gen((#[trigger] entries[t]).name@) == Some(
            (#[trigger] files[j]).gen as int,
        ) && files[j].content@ == entries[t].content@
}

/// Every log file named by the first `upto` directory entries has been
/// gathered.
pub open spec fn entries_covered(files: Seq<LogFile>, entries: Seq<DirEntry>, upto: int) -> bool {
    forall|t: int| 0 <= t < upto && crate::naming::name_gen(
        (#[trigger] entries[t]).name@,
    ) is Some ==> exists|j: int| 0 <= j < files.len() && (#[trigger] files[j]).gen as int
        == crate::naming::name_gen(entries[t].name@)->0
}

/// Collect the log files named in a directory listing, sorted by
/// generation, ascending.  Names that are not `<u64>.log` are ignored; if
/// two names give one generation, the first wins.
#[verifier::rlimit(100)]
#[verifier::spinoff_prover]
fn gather_log_files(entries: &Vec<DirEntry>) -> (files: Vec<LogFile>)
    ensures
        forall|a: int, b: int| 0 <= a < b < files@.len() ==> files@[a].gen < files@[b].gen,
        forall|j: int| 0 <= j < files@.len() ==> (#[trigger] files@[j]).read_pos == 0,
        files_from_entries(files@, entries@),
        entries_covered(files@, entries@, entries@.len() as int),
{
    let mut files: Vec<LogFile> = Vec::new();
    let ne = entries.len();
    let mut ei: usize = 0;
    while ei < ne
        invariant
            0 <= ei <= ne == entries@.len(),
            forall|a: int, b: int| 0 <= a < b < files@.len() ==> files@[a].gen < files@[b].gen,
            forall|j: int| 0 <= j < files@.len() ==> (#[trigger] files@[j]).read_pos == 0,
            files_from_entries(files@, entries@),
            entries_covered(files@, entries@, ei as int),
        decreases ne - ei,
    {
        match crate::naming::gen_of_filename(entries[ei].name.as_str()) {
            None => {},
            Some(g) => {
                let mut p: usize = 0;
                while p < files.len() && files[p].gen < g
                    invariant
                        0 <= p <= files@.len(),
                        forall|a: int, b: int| 0 <= a < b < files@.len() ==> files@[a].gen
                            < files@[b].gen,
                        forall|j: int| 0 <= j < p ==> (#[trigger] files@[j]).gen < g,
                    decreases files@.len() - p,
                {
                    p = p + 1;
                }
                if p < files.len() && files[p].gen == g {
                    // a second name for the same generation: first wins
                    proof {
                        assert(files@[p as int].gen as int == crate::naming::name_gen(
                            entries@[ei as int].name@,
                        )->0);
                        assert(entries_covered(files@, entries@, ei + 1));
                    }
                } else {
                    let cs = crate::strutil::chars_of(entries[ei].content.as_str());
                    let ghost pre = files@;
                    files.insert(p, LogFile { gen: g, content: cs, read_pos: 0 });
                    proof {
                        assert(forall|j: int| 0 <= j < p ==> files@[j] == pre[j]);
                        assert(forall|j: int| p < j < files@.len() ==> files@[j] == pre[j - 1]);
                        assert(files@[p as int].gen == g);
                        assert forall|a: int, b: int| 0 <= a < b < files@.len() implies files@[
                        a].gen < files@[b].gen by {
                            if a == p && b > p {
                                assert(files@[b] == pre[b - 1]);
                                if p < pre.len() {
                                    assert(pre[p as int].gen > g);
                                }
                                if b - 1 > p {
                                    assert(pre[p as int].gen <= pre[b - 1].gen);
                                }
                            }
                        }
                        assert(files_from_entries(files@, entries@)) by {
                            assert forall|j: int| 0 <= j < files@.len() implies exists|t: int|
                                0 <= t < entries@.len() && crate::naming::name_gen(
                                    (#[trigger] entries@[t]).name@,
                                ) == Some((#[trigger] files@[j]).gen as int) && files@[j].content@
                                == entries@[t].content@ by {
                                if j < p {
                                    assert(files@[j] == pre[j]);
                                } else if j == p {
                                    assert(crate::naming::name_gen(entries@[ei as int].name@)
                                        == Some(g as int) && files@[j].content@
                                        == entries@[ei as int].content@);
                                } else {
                                    assert(files@[j] == pre[j - 1]);
                                }
                            }
                        }
                        assert(entries_covered(files@, entries@, ei + 1)) by {
                            assert forall|t: int| 0 <= t < ei + 1 && crate::naming::name_gen(
                                (#[trigger] entries@[t]).name@,
                            ) is Some implies exists|j: int| 0 <= j < files@.len() && (
                            #[trigger] files@[j]).gen as int == crate::naming::name_gen(
                                entries@[t].name@,
                            )->0 by {
                                if t < ei {
                                    let j0 = choose|j: int|
                                        0 <= j < pre.len() && (#[trigger] pre[j]).gen as int
                                            == crate::naming::name_gen(entries@[t].name@)->0;
                                    if j0 < p {
                                        assert(files@[j0] == pre[j0]);
                                    } else {
                                        assert(files@[j0 + 1] == pre[j0]);
                                    }
                                } else {
                                    assert(files@[p as int].gen as int == crate::naming::name_gen(
                                        entries@[t].name@,
                                    )->0);
                                }
                            }
                        }
                    }
                }
            },
        }
        ei = ei + 1;
    }
    files
}

impl KvStore {
    /// Open a store from a directory listing: every entry whose name is
    /// `<u64>.log` is replayed in ascending generation order (any other
    /// entry is ignored), then a fresh active generation is created one past
    /// the highest existing one, or generation 1 in an empty directory.
    ///
    /// Replay aborts with an encoding error if a considered log is
    /// malformed; a truncated trailing record is tolerated.
    #[verifier::rlimit(100)]
    #[verifier::spinoff_prover]
    pub fn open(entries: &Vec<DirEntry>) -> (r: Result<KvStore, crate::errors::KvsError>)
        ensures
            match r {
                Ok(s) => {
                    &&& s.wf()
                    &&& s.pending@.len() == 1
                    &&& s.pending@[0] == (FsOp::CreateLog { gen: s.current_gen })
                    // the active generation is one past the greatest
                    // existing one, or 1 in a directory without logs
                    &&& s.files@.len() >= 2 ==> s.current_gen == s.files@[s.files@.len()
                        - 2].gen + 1
                    &&& s.files@.len() == 1 ==> s.current_gen == 1
                    &&& s.writer_pos == 0
                    // every open generation but the active one comes from a
                    // log file in the directory
                    &&& files_from_entries(s.files@.drop_last(), entries@)
                    // every log file in the directory is open
                    &&& entries_covered(s.files@.drop_last(), entries@, entries@.len() as int)
                    // a directory without log files starts at generation 1,
                    // empty
                    &&& (forall|t: int| 0 <= t < entries@.len() ==> crate::naming::name_gen(
                        (#[trigger] entries@[t]).name@,
                    ) is None) ==> s.files@.len() == 1 && s.current_gen == 1
                        && s.files@[0].content@.len() == 0 && s@ == Map::<
                        Seq<char>,
                        Seq<char>,
                    >::empty()
                    &&& s.files@.last().content@.len() == 0
                    &&& index_map_of(s.index@) == replay_files(s.files@).0
                    &&& s.uncompacted as int == replay_files(s.files@).1
                },
                Err(_) => exists|t: int|
                    0 <= t < entries@.len() && crate::naming::name_gen(
                        (#[trigger] entries@[t]).name@,
                    ) is Some && (crate::logfile::log_parse(entries@[t].content@).tail
                        == crate::logfile::LogTail::Malformed || crate::naming::name_gen(
                        entries@[t].name@,
                    )->0 == u64::MAX),
            },
    {
        let mut files = gather_log_files(entries);
        // replay, ascending
        let mut index: Vec<IndexEntry> = Vec::new();
        let mut garbage: u64 = 0;
        let nf = files.len();
        let mut fi: usize = 0;
        while fi < nf
            invariant
                0 <= fi <= nf == files@.len(),
                forall|a: int, b: int| 0 <= a < b < files@.len() ==> files@[a].gen < files@[b].gen,
                forall|j: int| 0 <= j < files@.len() ==> (#[trigger] files@[j]).read_pos == 0,
                files_from_entries(files@, entries@),
                entries_covered(files@, entries@, entries@.len() as int),
                forall|j: int| 0 <= j < fi ==> crate::logfile::log_parse(
                    (#[trigger] files@[j]).content@,
                ).tail != crate::logfile::LogTail::Malformed,
                keys_distinct(index@),
                index_map_of(index@) == replay_files(files@.subrange(0, fi as int)).0,
                garbage as int == replay_files(files@.subrange(0, fi as int)).1,
                forall|k: Seq<char>| #[trigger] index_map_of(index@).contains_key(k) ==> exists|
                    j: int,
                |
                    0 <= j < fi && located_in(
                        k,
                        index_map_of(index@)[k],
                        (#[trigger] files@[j]).gen,
                        files@[j].content@,
                    ),
            decreases nf - fi,
        {
            let ghost m_pre = index_map_of(index@);
            let res = replay_log_file(files[fi].gen, &files[fi].content, &mut index, garbage);
            match res {
                Ok(g2) => {
                    garbage = g2;
                },
                Err(e) => {
                    return Err(e);
                },
            }
            proof {
                assert(files@.subrange(0, fi + 1).drop_last() =~= files@.subrange(0, fi as int));
                assert(files@.subrange(0, fi + 1).last() == files@[fi as int]);
                assert forall|k: Seq<char>| #[trigger] index_map_of(index@).contains_key(
                    k,
                ) implies exists|j: int|
                    0 <= j < fi + 1 && located_in(
                        k,
                        index_map_of(index@)[k],
                        (#[trigger] files@[j]).gen,
                        files@[j].content@,
                    ) by {
                    let e = index_map_of(index@)[k];
                    if m_pre.contains_key(k) && m_pre[k] == e {
                        let j0 = choose|j: int|
                            0 <= j < fi && located_in(k, m_pre[k], (#[trigger] files@[j]).gen,
                            files@[j].content@);
                        assert(located_in(k, e, files@[j0].gen, files@[j0].content@));
                    } else {
                        assert(located_in(k, e, files@[fi as int].gen, files@[fi as int].content@));
                    }
                }
            }
            fi = fi + 1;
        }
        // fresh active generation
        let active: u64 = if files.len() == 0 {
            1
        } else {
            let lastg = files[files.len() - 1].gen;
            if lastg == u64::MAX {
                proof {
                    let j: int = files@.len() - 1;
                    let t = choose|t: int|
                        0 <= t < entries@.len() && crate::naming::name_gen(
                            (#[trigger] entries@[t]).name@,
                        ) == Some((#[trigger] files@[j]).gen as int) && files@[j].content@
                        == entries@[t].content@;
                    assert(crate::naming::name_gen(entries@[t].name@)->0 == u64::MAX);
                }
                return Err(crate::errors::KvsError::Other(
                    "the generation counter is exhausted".to_owned(),
                ));
            }
            lastg + 1
        };
        let ghost old_files = files@;
        let afile = LogFile::new(active);
        files.push(afile);
        let mut pending: Vec<FsOp> = Vec::new();
        pending.push(FsOp::CreateLog { gen: active });
        let store = KvStore {
            index,
            files,
            current_gen: active,
            writer_pos: 0,
            uncompacted: garbage,
            pending,
        };
        proof {
            let fs = store.files@;
            assert(fs.drop_last() =~= old_files);
            assert(files_from_entries(fs.drop_last(), entries@));
            assert(entries_covered(fs.drop_last(), entries@, entries@.len() as int));
            assert(old_files.subrange(0, old_files.len() as int) =~= old_files);
            assert(fs.last().content@ =~= Seq::<char>::empty());
            assert(log_parse(fs.last().content@).recs =~= Seq::<PosRec>::empty());
            crate::logfile::lemma_empty_framed();
            assert(replay_files(fs).0 == replay_files(old_files).0);
            assert(replay_files(fs).1 == replay_files(old_files).1);
            assert(files_wf(fs)) by {
                assert(forall|j: int| 0 <= j < old_files.len() ==> fs[j] == old_files[j]);
            }
            assert(store.entries_located()) by {
                assert(forall|j: int| 0 <= j < old_files.len() ==> fs[j] == old_files[j]);
            }
            if forall|t: int| 0 <= t < entries@.len() ==> crate::naming::name_gen(
                (#[trigger] entries@[t]).name@,
            ) is None {
                assert(old_files.len() == 0) by {
                    if old_files.len() > 0 {
                        assert(files_from_entries(old_files, entries@));
                        let t = choose|t: int|
                            0 <= t < entries@.len() && crate::naming::name_gen(
                                (#[trigger] entries@[t]).name@,
                            ) == Some((#[trigger] old_files[0]).gen as int) && old_files[0].content@
                            == entries@[t].content@;
                        assert(false);
                    }
                }
                assert(index_map_of(store.index@) =~= Map::<Seq<char>, EntryV>::empty());
                assert(store@ =~= Map::<Seq<char>, Seq<char>>::empty());
            }
        }
        Ok(store)
    }
}

} // verus!
