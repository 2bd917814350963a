//! Frame-stamped snapshots and the engine that retains them.
//!
//! A snapshot always holds the full live-object set and the full edge set,
//! whatever the component tagging says, together with the value of every
//! rollback-tagged component. Transient (`Derived`) state is never captured
//! nor restored: after a restore, a surviving object keeps its current
//! transient value, and a recreated object has none.
//!
//! A restore is atomic: the new object list is built aside and swapped in
//! whole, and a failed restore (an untracked frame) leaves the store
//! untouched.

use vstd::prelude::*;
use crate::RollbackError;
use crate::graph::{Edge, child_unique, parent_map, acyclic, children_seq, descendants_seq};
use crate::store::{
    ObjRecord, Store, rec_of, ids_unique, lemma_rec_of_index,
};

verus! {

/// The record of one object as a snapshot keeps it: identity and
/// rollback-tagged components, with the transient slot cleared.
pub open spec fn snap_rec(rec: ObjRecord) -> ObjRecord {
    ObjRecord { derived: None, ..rec }
}

/// The captured form of a whole record list.
pub open spec fn snap_objs(objs: Seq<ObjRecord>) -> Seq<ObjRecord> {
    objs.map_values(|rec: ObjRecord| snap_rec(rec))
}

/// The record that a restore produces for the captured record `sr`, given
/// the record list `cur` that is live at restore time: rollback-tagged state
/// from the snapshot, transient state from the current object when it
/// survives.
pub open spec fn restore_rec(sr: ObjRecord, cur: Seq<ObjRecord>) -> ObjRecord {
    ObjRecord {
        derived: match rec_of(cur, sr.id) {
            Some(c) => c.derived,
            None => None,
        },
        ..sr
    }
}

/// The whole record list that a restore produces.
pub open spec fn restore_objs(snaps: Seq<ObjRecord>, cur: Seq<ObjRecord>) -> Seq<ObjRecord> {
    snaps.map_values(|sr: ObjRecord| restore_rec(sr, cur))
}

/// Capturing keeps identities in place and changes lookups pointwise.
pub proof fn lemma_rec_of_snap(objs: Seq<ObjRecord>, id: u64)
    ensures
        rec_of(snap_objs(objs), id) == (match rec_of(objs, id) {
            Some(r) => Some(snap_rec(r)),
            None => None::<ObjRecord>,
        }),
    decreases objs.len(),
{
    if objs.len() > 0 {
        assert(snap_objs(objs)[0] == snap_rec(objs[0]));
        assert(snap_objs(objs).drop_first() =~= snap_objs(objs.drop_first()));
        lemma_rec_of_snap(objs.drop_first(), id);
    }
}

/// Restoring keeps identities in place and changes lookups pointwise.
pub proof fn lemma_rec_of_restore(snaps: Seq<ObjRecord>, cur: Seq<ObjRecord>, id: u64)
    ensures
        rec_of(restore_objs(snaps, cur), id) == (match rec_of(snaps, id) {
            Some(sr) => Some(restore_rec(sr, cur)),
            None => None::<ObjRecord>,
        }),
    decreases snaps.len(),
{
    if snaps.len() > 0 {
        assert(restore_objs(snaps, cur)[0] == restore_rec(snaps[0], cur));
        assert(restore_objs(snaps, cur).drop_first() =~= restore_objs(snaps.drop_first(), cur));
        lemma_rec_of_restore(snaps.drop_first(), cur, id);
    }
}

/// Restoring a capture of a store onto that same store reproduces the record
/// list exactly, transient state included.
pub proof fn lemma_capture_restore_identity(objs: Seq<ObjRecord>)
    requires
        ids_unique(objs),
    ensures
        restore_objs(snap_objs(objs), objs) == objs,
{
    assert forall|i: int| 0 <= i < objs.len() implies restore_objs(snap_objs(objs), objs)[i]
        == objs[i] by {
        assert(snap_objs(objs)[i] == snap_rec(objs[i]));
        lemma_rec_of_index(objs, i);
        assert(restore_objs(snap_objs(objs), objs)[i] == restore_rec(snap_rec(objs[i]), objs));
    }
    assert(restore_objs(snap_objs(objs), objs) =~= objs);
}

/// Graph consistency across a rollback boundary: after a capture of a
/// well-formed store is restored onto it, the store's records are exactly
/// what they were, and every hierarchy view derived from the edge table --
/// the child lists and the depth-first descendant traversal -- is exactly
/// what it was before the capture.
pub proof fn lemma_round_trip_preserves_structure(pre: Store, post: Store, root: u64)
    requires
        pre.wf(),
        post.objs@ == restore_objs(snap_objs(pre.objs@), pre.objs@),
        post.edges@ == pre.edges@,
    ensures
        post.objs@ == pre.objs@,
        forall|id: u64|
            #[trigger] children_seq(post.edges@, id) == children_seq(pre.edges@, id),
        descendants_seq(post.edges@, root, post.objs@.len() as nat) == descendants_seq(
            pre.edges@,
            root,
            pre.objs@.len() as nat,
        ),
{
    lemma_capture_restore_identity(pre.objs@);
}

/// An immutable, frame-stamped capture: the full live-object set with its
/// rollback-tagged component values, the full edge set, and the identifier
/// bound, so that identities stay stable and unreused across any restore.
pub struct Snapshot {
    pub frame: usize,
    pub objs: Vec<ObjRecord>,
    pub edges: Vec<Edge>,
    pub next_id: u64,
}

impl Snapshot {
    /// A snapshot is shaped like the well-formed store it came from, and
    /// holds no transient state.
    pub open spec fn wf(self) -> bool {
        &&& ids_unique(self.objs@)
        &&& child_unique(self.edges@)
        &&& forall|i: int|
            0 <= i < self.edges@.len() ==> rec_of(
                self.objs@,
                (#[trigger] self.edges@[i]).child,
            ).is_some() && rec_of(self.objs@, self.edges@[i].parent).is_some()
        &&& acyclic(parent_map(self.edges@))
        &&& forall|i: int| 0 <= i < self.objs@.len() ==> (#[trigger] self.objs@[i]).id < self.next_id
        &&& forall|i: int| 0 <= i < self.objs@.len() ==> (#[trigger] self.objs@[i]).derived.is_none()
    }

    /// Captures the rollback-tagged state of `store` as of `frame`: every
    /// live object, every rollback-tagged component value, and the full edge
    /// set.
    pub fn capture(store: &Store, frame: usize) -> (r: Snapshot)
        requires
            store.wf(),
        ensures
            r.wf(),
            r.frame == frame,
            r.objs@ == snap_objs(store.objs@),
            r.edges@ == store.edges@,
            r.next_id == store.next_id,
    {
        let mut objs: Vec<ObjRecord> = Vec::new();
        let mut i: usize = 0;
        while i < store.objs.len()
            invariant
                i <= store.objs@.len(),
                objs@ == snap_objs(store.objs@.take(i as int)),
            decreases store.objs@.len() - i,
        {
            let rec = store.objs[i];
            objs.push(ObjRecord { id: rec.id, transform: rec.transform, tag: rec.tag, derived: None });
            proof {
                assert(objs@ =~= snap_objs(store.objs@.take(i as int + 1)));
            }
            i += 1;
        }
        proof {
            assert(store.objs@.take(store.objs@.len() as int) =~= store.objs@);
        }
        let edges = clone_edges(&store.edges);
        let r = Snapshot { frame, objs, edges, next_id: store.next_id };
        proof {
            assert forall|i2: int|
                0 <= i2 < r.edges@.len() implies rec_of(
                r.objs@,
                (#[trigger] r.edges@[i2]).child,
            ).is_some() && rec_of(r.objs@, r.edges@[i2].parent).is_some() by {
                lemma_rec_of_snap(store.objs@, r.edges@[i2].child);
                lemma_rec_of_snap(store.objs@, r.edges@[i2].parent);
            }
            assert forall|i2: int, j2: int| 0 <= i2 < j2 < r.objs@.len() implies (#[trigger] r
                .objs@[i2].id) != (#[trigger] r.objs@[j2].id) by {
                assert(r.objs@[i2].id == store.objs@[i2].id);
                assert(r.objs@[j2].id == store.objs@[j2].id);
            }
            assert forall|i2: int|
                0 <= i2 < r.objs@.len() implies (#[trigger] r.objs@[i2]).id < r.next_id by {
                assert(r.objs@[i2].id == store.objs@[i2].id);
                assert(store.objs@[i2].id < store.next_id);
            }
        }
        r
    }

    /// Replaces the store's live-object set, rollback-tagged component
    /// values, and edge set with this snapshot's contents, in one step.
    /// Objects absent from the snapshot are destroyed; objects absent from
    /// the store are recreated under their original identity. Transient
    /// components of surviving objects keep their current values.
    pub fn restore_into(&self, store: &mut Store)
        requires
            self.wf(),
            old(store).wf(),
        ensures
            final(store).wf(),
            final(store).objs@ == restore_objs(self.objs@, old(store).objs@),
            final(store).edges@ == self.edges@,
            final(store).next_id == (if old(store).next_id >= self.next_id {
                old(store).next_id
            } else {
                self.next_id
            }),
    {
        let ghost cur = store.objs@;
        let mut objs: Vec<ObjRecord> = Vec::new();
        let mut i: usize = 0;
        while i < self.objs.len()
            invariant
                i <= self.objs@.len(),
                *store == *old(store),
                cur == store.objs@,
                objs@ == restore_objs(self.objs@.take(i as int), cur),
            decreases self.objs@.len() - i,
        {
            let sr = self.objs[i];
            let derived = crate::store::lookup_derived(&store.objs, sr.id);
            objs.push(ObjRecord { id: sr.id, transform: sr.transform, tag: sr.tag, derived });
            proof {
                assert(objs@ =~= restore_objs(self.objs@.take(i as int + 1), cur));
            }
            i += 1;
        }
        proof {
            assert(self.objs@.take(self.objs@.len() as int) =~= self.objs@);
        }
        store.objs = objs;
        store.edges = clone_edges(&self.edges);
        if store.next_id < self.next_id {
            store.next_id = self.next_id;
        }
        proof {
            let newv = restore_objs(self.objs@, cur);
            assert forall|i2: int, j2: int| 0 <= i2 < j2 < newv.len() implies (#[trigger] newv[i2]
                .id) != (#[trigger] newv[j2].id) by {
                assert(newv[i2].id == self.objs@[i2].id);
                assert(newv[j2].id == self.objs@[j2].id);
            }
            assert forall|i2: int|
                0 <= i2 < store.edges@.len() implies store.is_live(
                (#[trigger] store.edges@[i2]).child,
            ) && store.is_live(store.edges@[i2].parent) by {
                lemma_rec_of_restore(self.objs@, cur, store.edges@[i2].child);
                lemma_rec_of_restore(self.objs@, cur, store.edges@[i2].parent);
            }
            assert forall|i2: int|
                0 <= i2 < store.objs@.len() implies (#[trigger] store.objs@[i2]).id
                < store.next_id by {
                assert(newv[i2].id == self.objs@[i2].id);
                assert(self.objs@[i2].id < self.next_id);
            }
        }
    }
}

/// The retained snapshot stamped `frame`, if any.
pub open spec fn snap_lookup(snaps: Seq<Snapshot>, frame: usize) -> Option<Snapshot>
    decreases snaps.len(),
{
    if snaps.len() == 0 {
        None
    } else if snaps[0].frame == frame {
        Some(snaps[0])
    } else {
        snap_lookup(snaps.drop_first(), frame)
    }
}

/// The retained snapshots with every frame beyond `frame` discarded.
pub open spec fn snaps_through(snaps: Seq<Snapshot>, frame: usize) -> Seq<Snapshot>
    decreases snaps.len(),
{
    if snaps.len() == 0 {
        snaps
    } else if snaps.last().frame > frame {
        snaps_through(snaps.drop_last(), frame)
    } else {
        snaps
    }
}

/// What recording adds: the snapshot goes last, and the oldest retained one
/// leaves when the window is exceeded.
pub open spec fn after_record(snaps: Seq<Snapshot>, snap: Snapshot, retention: nat) -> Seq<
    Snapshot,
> {
    let grown = snaps.push(snap);
    if grown.len() > retention {
        grown.skip(grown.len() - retention)
    } else {
        grown
    }
}

/// Frames strictly increase along the retained snapshots.
pub open spec fn frames_increasing(snaps: Seq<Snapshot>) -> bool {
    forall|i: int, j: int|
        0 <= i < j < snaps.len() ==> (#[trigger] snaps[i].frame) < (#[trigger] snaps[j].frame)
}

/// With increasing frames, discarding beyond the frame found at `idx` keeps
/// exactly the snapshots up to and including `idx`.
proof fn lemma_snaps_through_at(snaps: Seq<Snapshot>, frame: usize, idx: int)
    requires
        frames_increasing(snaps),
        0 <= idx < snaps.len(),
        snaps[idx].frame == frame,
    ensures
        snaps_through(snaps, frame) == snaps.take(idx + 1),
    decreases snaps.len(),
{
    if idx == snaps.len() - 1 {
        assert(snaps.take(idx + 1) =~= snaps);
    } else {
        assert(snaps[idx].frame < snaps[snaps.len() - 1].frame);
        let prior = snaps.drop_last();
        assert forall|i: int, j: int| 0 <= i < j < prior.len() implies (#[trigger] prior[i].frame)
            < (#[trigger] prior[j].frame) by {
            assert(prior[i] == snaps[i]);
            assert(prior[j] == snaps[j]);
        }
        assert(prior[idx] == snaps[idx]);
        lemma_snaps_through_at(prior, frame, idx);
        assert(prior.take(idx + 1) =~= snaps.take(idx + 1));
    }
}

/// The index of the first retained snapshot stamped `frame`, if any.
fn find_frame(snaps: &Vec<Snapshot>, frame: usize) -> (r: Option<usize>)
    ensures
        match r {
            Some(i) => i < snaps@.len() && snaps@[i as int].frame == frame && snap_lookup(
                snaps@,
                frame,
            ) == Some(snaps@[i as int]),
            None => snap_lookup(snaps@, frame).is_none(),
        },
{
    proof {
        assert(snaps@.skip(0) =~= snaps@);
    }
    let mut i: usize = 0;
    while i < snaps.len()
        invariant
            i <= snaps@.len(),
            snap_lookup(snaps@, frame) == snap_lookup(snaps@.skip(i as int), frame),
        decreases snaps@.len() - i,
    {
        proof {
            assert(snaps@.skip(i as int)[0] == snaps@[i as int]);
            assert(snaps@.skip(i as int).drop_first() =~= snaps@.skip(i as int + 1));
        }
        let s = &snaps[i];
        if s.frame == frame {
            return Some(i);
        }
        i += 1;
    }
    proof {
        assert(snaps@.skip(snaps@.len() as int) =~= Seq::<Snapshot>::empty());
    }
    None
}

/// The snapshot engine: the retained window of frame-stamped snapshots,
/// oldest first. The window size is the session's backpressure control.
pub struct SnapshotEngine {
    pub snaps: Vec<Snapshot>,
    pub retention: usize,
}

impl SnapshotEngine {
    /// At most `retention` snapshots, each well formed, frames strictly
    /// increasing.
    pub open spec fn wf(self) -> bool {
        &&& self.retention >= 1
        &&& self.snaps@.len() <= self.retention
        &&& forall|i: int| 0 <= i < self.snaps@.len() ==> (#[trigger] self.snaps@[i]).wf()
        &&& frames_increasing(self.snaps@)
    }

    /// A snapshot stamped `frame` is retained.
    pub open spec fn has_frame(self, frame: usize) -> bool {
        snap_lookup(self.snaps@, frame).is_some()
    }

    /// An engine that retains up to `retention` snapshots, holding none yet.
    pub fn new(retention: usize) -> (r: SnapshotEngine)
        requires
            retention >= 1,
        ensures
            r.wf(),
            r.snaps@.len() == 0,
            r.retention == retention,
    {
        SnapshotEngine { snaps: Vec::new(), retention }
    }

    /// Retains a snapshot newer than every retained one; the oldest retained
    /// snapshot is discarded when the window is exceeded.
    pub fn record(&mut self, snap: Snapshot)
        requires
            old(self).wf(),
            snap.wf(),
            old(self).snaps@.len() > 0 ==> old(self).snaps@.last().frame < snap.frame,
        ensures
            final(self).wf(),
            final(self).snaps@ == after_record(
                old(self).snaps@,
                snap,
                old(self).retention as nat,
            ),
            final(self).retention == old(self).retention,
            final(self).snaps@.len() > 0,
            final(self).snaps@.last() == snap,
    {
        let ghost prior = self.snaps@;
        let ghost grown = prior.push(snap);
        proof {
            assert forall|i: int, j: int| 0 <= i < j < grown.len() implies (#[trigger] grown[i]
                .frame) < (#[trigger] grown[j].frame) by {
                if j == grown.len() - 1 {
                    if i < prior.len() - 1 {
                        assert(prior[i].frame < prior[prior.len() - 1].frame);
                    }
                } else {
                    assert(grown[i] == prior[i] && grown[j] == prior[j]);
                }
            }
        }
        self.snaps.push(snap);
        if self.snaps.len() > self.retention {
            self.snaps.remove(0);
            proof {
                assert(grown.remove(0) =~= grown.skip(1));
                assert(self.snaps@ == grown.skip(grown.len() - old(self).retention));
                assert forall|i: int, j: int| 0 <= i < j < self.snaps@.len() implies (#[trigger] self
                    .snaps@[i].frame) < (#[trigger] self.snaps@[j].frame) by {
                    assert(self.snaps@[i] == grown[i + 1]);
                    assert(self.snaps@[j] == grown[j + 1]);
                }
                assert forall|i: int|
                    0 <= i < self.snaps@.len() implies (#[trigger] self.snaps@[i]).wf() by {
                    assert(self.snaps@[i] == grown[i + 1]);
                }
            }
        }
    }

    /// Restores the store to the snapshot stamped `frame` and discards every
    /// retained snapshot of a later frame, which the coming replay will
    /// re-record. Fails with `SnapshotNotFound` exactly when no snapshot of
    /// that frame is retained; the failure leaves both the engine and --
    /// restore being atomic -- the store exactly as they were.
    pub fn rollback_to(&mut self, frame: usize, store: &mut Store) -> (r: Result<
        (),
        RollbackError,
    >)
        requires
            old(self).wf(),
            old(store).wf(),
        ensures
            final(self).wf(),
            final(store).wf(),
            final(self).retention == old(self).retention,
            match r {
                Ok(()) => (match snap_lookup(old(self).snaps@, frame) {
                    Some(snap) => final(store).objs@ == restore_objs(
                        snap.objs@,
                        old(store).objs@,
                    ) && final(store).edges@ == snap.edges@ && final(store).next_id == (if old(
                        store,
                    ).next_id >= snap.next_id {
                        old(store).next_id
                    } else {
                        snap.next_id
                    }),
                    None => false,
                }) && final(self).snaps@ == snaps_through(old(self).snaps@, frame)
                    && final(self).snaps@.len() > 0 && final(self).snaps@.last().frame == frame,
                Err(e) => e == RollbackError::SnapshotNotFound && !old(self).has_frame(frame)
                    && *final(self) == *old(self) && *final(store) == *old(store),
            },
    {
        let idx = match find_frame(&self.snaps, frame) {
            Some(i) => i,
            None => {
                return Err(RollbackError::SnapshotNotFound);
            },
        };
        let snap = &self.snaps[idx];
        snap.restore_into(store);
        self.snaps.truncate(idx + 1);
        proof {
            let prior = old(self).snaps@;
            lemma_snaps_through_at(prior, frame, idx as int);
            assert(self.snaps@ == prior.subrange(0, idx as int + 1));
            assert(self.snaps@ =~= prior.take(idx as int + 1));
            assert forall|i: int, j: int| 0 <= i < j < self.snaps@.len() implies (#[trigger] self
                .snaps@[i].frame) < (#[trigger] self.snaps@[j].frame) by {
                assert(self.snaps@[i] == prior[i]);
                assert(self.snaps@[j] == prior[j]);
            }
            assert forall|i: int|
                0 <= i < self.snaps@.len() implies (#[trigger] self.snaps@[i]).wf() by {
                assert(self.snaps@[i] == prior[i]);
            }
            assert(self.snaps@.last() == prior[idx as int]);
        }
        Ok(())
    }
}

/// An exact copy of an edge table.
fn clone_edges(edges: &Vec<Edge>) -> (r: Vec<Edge>)
    ensures
        r@ == edges@,
{
    let mut r: Vec<Edge> = Vec::new();
    let mut i: usize = 0;
    while i < edges.len()
        invariant
            i <= edges@.len(),
            r@ == edges@.take(i as int),
        decreases edges@.len() - i,
    {
        r.push(edges[i]);
        proof {
            assert(r@ =~= edges@.take(i as int + 1));
        }
        i += 1;
    }
    proof {
        assert(edges@.take(edges@.len() as int) =~= edges@);
    }
    r
}

} // verus!
