//! The store's laws, stated over the abstract contents that the operation
//! contracts speak of, and over the codec.

use vstd::prelude::*;

use crate::codec::{enc_rec, parse_rec, rec_sound_at, RecParse, RecordView};
use crate::logfile::PosRec;
use crate::store::{
    index_map_of, lemma_map_values_insert, lemma_map_values_remove, rec_step, replay_files,
    replay_recs, EntryV, KvStore,
};

verus! {

/// After `set(k, v)`, `get(k)` yields `Some(v)`: `set` makes its binding
/// visible, whatever was bound before.
pub proof fn lemma_set_then_get(m: Map<Seq<char>, Seq<char>>, k: Seq<char>, v: Seq<char>)
    ensures
        m.insert(k, v).contains_key(k),
        m.insert(k, v)[k] == v,
{
}

/// On a fresh store no key is present, so `remove(k)` reports key-not-found;
/// and after `set(k, v); remove(k)` the key is absent, so `get(k)` yields
/// `None`.
pub proof fn lemma_remove_semantics(m: Map<Seq<char>, Seq<char>>, k: Seq<char>, v: Seq<char>)
    ensures
        !Map::<Seq<char>, Seq<char>>::empty().contains_key(k),
        !m.insert(k, v).remove(k).contains_key(k),
{
}

/// Two identical `set(k, v)` calls leave the same observable contents as
/// one; only internal counters may differ.
pub proof fn lemma_set_idempotent(m: Map<Seq<char>, Seq<char>>, k: Seq<char>, v: Seq<char>)
    ensures
        m.insert(k, v).insert(k, v) == m.insert(k, v),
{
    assert(m.insert(k, v).insert(k, v) =~= m.insert(k, v));
}

/// Replaying the logs of a well-formed store rebuilds exactly its index,
/// entry for entry, and hence its observable contents: reopening a store
/// from its files yields the outcome of the operations that built it.
pub proof fn lemma_replay_reconstructs(s: &KvStore)
    requires
        s.wf(),
    ensures
        replay_files(s.files@).0 == index_map_of(s.index@),
        replay_files(s.files@).0.map_values(|e: EntryV| e.val) == s@,
{
}

/// The codec round trip: the canonical encoding of any record decodes back
/// to that record, and whatever decodes re-encodes to exactly the text that
/// was read.
pub proof fn lemma_record_round_trip(r: RecordView, s: Seq<char>, i: int)
    ensures
        parse_rec(enc_rec(r), 0) == (RecParse::Parsed { rec: r, end: enc_rec(r).len() as int }),
        rec_sound_at(s, i),
{
    let e = enc_rec(r);
    assert(e.subrange(0, e.len() as int) =~= e);
    crate::codec::lemma_rec_complete(e, 0, r);
    crate::codec::lemma_rec_sound(s, i);
}

/// What one command does to plain contents: `Set` binds, `Remove` deletes.
pub open spec fn apply_command(
    m: Map<Seq<char>, Seq<char>>,
    r: RecordView,
) -> Map<Seq<char>, Seq<char>> {
    match r {
        RecordView::Put { key, value } => m.insert(key, value),
        RecordView::Remove { key } => m.remove(key),
    }
}

/// Apply a sequence of commands to plain contents, left to right.
pub open spec fn apply_commands(
    m: Map<Seq<char>, Seq<char>>,
    rs: Seq<RecordView>,
) -> Map<Seq<char>, Seq<char>>
    decreases rs.len(),
{
    if rs.len() == 0 {
        m
    } else {
        apply_commands(apply_command(m, rs[0]), rs.drop_first())
    }
}

/// Replaying a log's records into the index yields exactly the contents
/// that applying the same commands to an in-memory map yields: replay
/// agrees with the outcome of the operations that wrote the log.
pub proof fn lemma_replay_agrees_with_map(
    m: Map<Seq<char>, EntryV>,
    garbage: int,
    g: u64,
    recs: Seq<PosRec>,
)
    ensures
        replay_recs(m, garbage, g, recs).0.map_values(|e: EntryV| e.val) == apply_commands(
            m.map_values(|e: EntryV| e.val),
            recs.map_values(|pr: PosRec| pr.rec),
        ),
    decreases recs.len(),
{
    let cmds = recs.map_values(|pr: PosRec| pr.rec);
    if recs.len() == 0 {
        assert(cmds.len() == 0);
    } else {
        let s = rec_step(m, garbage, g, recs[0]);
        assert(cmds[0] == recs[0].rec);
        assert(cmds.drop_first() =~= recs.drop_first().map_values(|pr: PosRec| pr.rec));
        match recs[0].rec {
            RecordView::Put { key, value } => {
                let e = EntryV {
                    gen: g,
                    pos: recs[0].start,
                    len: recs[0].end - recs[0].start,
                    val: value,
                };
                lemma_map_values_insert(m, key, e);
                assert(s.0.map_values(|x: EntryV| x.val) == apply_command(
                    m.map_values(|x: EntryV| x.val),
                    recs[0].rec,
                ));
            },
            RecordView::Remove { key } => {
                lemma_map_values_remove(m, key);
                assert(s.0.map_values(|x: EntryV| x.val) == apply_command(
                    m.map_values(|x: EntryV| x.val),
                    recs[0].rec,
                ));
            },
        }
        lemma_replay_agrees_with_map(s.0, s.1, g, recs.drop_first());
    }
}

} // verus!
