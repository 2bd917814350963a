//! The session controller and the deterministic per-frame simulation step.
//!
//! The step is a pure function of the pre-frame state, the hierarchy, and
//! the frame's inputs: no time-of-day, no randomness, no unspecified
//! traversal order. The controller advances the frontier one frame at a
//! time, keeps the inputs it used, and on a late correction restores the
//! snapshot of the corrected frame and replays every frame from there to the
//! frontier.

use vstd::prelude::*;
use crate::RollbackError;
use crate::graph::{Edge, descendants_seq};
use crate::store::{
    ObjRecord, Store, ComponentKind, ComponentValue, rec_of, ids_unique, objs_with_comp,
    lemma_objs_with_comp_props,
};
use crate::snapshot::{
    Snapshot, SnapshotEngine, snap_objs, restore_objs, snap_lookup, lemma_capture_restore_identity,
};

verus! {

/// The inputs of one frame: each participating player's handle paired with
/// that player's input value.
pub struct InputSet {
    pub entries: Vec<(u64, u8)>,
}

/// The command a frame's inputs denote: every player's input value summed,
/// wrapped to a byte. Every peer derives the same command from the same
/// entry list.
pub open spec fn cmd_of(entries: Seq<(u64, u8)>) -> u8
    decreases entries.len(),
{
    if entries.len() == 0 {
        0u8
    } else {
        ((cmd_of(entries.drop_last()) + entries.last().1) % 256) as u8
    }
}

impl InputSet {
    /// An input set with no entries.
    pub fn new() -> (r: InputSet)
        ensures
            r.entries@.len() == 0,
    {
        InputSet { entries: Vec::new() }
    }

    /// Adds one player's input value.
    pub fn push(&mut self, handle: u64, value: u8)
        ensures
            final(self).entries@ == old(self).entries@.push((handle, value)),
    {
        self.entries.push((handle, value));
    }

    /// The command this input set denotes.
    pub fn command(&self) -> (r: u8)
        ensures
            r == cmd_of(self.entries@),
    {
        let mut acc: u8 = 0;
        let mut i: usize = 0;
        while i < self.entries.len()
            invariant
                i <= self.entries@.len(),
                acc == cmd_of(self.entries@.take(i as int)),
            decreases self.entries@.len() - i,
        {
            proof {
                assert(self.entries@.take(i as int + 1).drop_last() =~= self.entries@.take(
                    i as int,
                ));
                assert(self.entries@.take(i as int + 1).last() == self.entries@[i as int]);
            }
            let v = self.entries[i].1;
            acc = ((acc as u16 + v as u16) % 256) as u8;
            i += 1;
        }
        proof {
            assert(self.entries@.take(self.entries@.len() as int) =~= self.entries@);
        }
        acc
    }
}

/// Whether two input sets record the same entries.
pub fn inputs_equal(a: &InputSet, b: &InputSet) -> (r: bool)
    ensures
        r == (a.entries@ == b.entries@),
{
    if a.entries.len() != b.entries.len() {
        proof {
            assert(a.entries@.len() != b.entries@.len());
        }
        return false;
    }
    let mut i: usize = 0;
    while i < a.entries.len()
        invariant
            i <= a.entries@.len(),
            a.entries@.len() == b.entries@.len(),
            forall|j: int| 0 <= j < i ==> a.entries@[j] == b.entries@[j],
        decreases a.entries@.len() - i,
    {
        let (ha, va) = a.entries[i];
        let (hb, vb) = b.entries[i];
        if ha != hb || va != vb {
            return false;
        }
        i += 1;
    }
    proof {
        assert(a.entries@ =~= b.entries@);
    }
    true
}

/// The position the step writes for the `offset`-th moved descendant: a
/// bounded integer function of the frame's command and the offset alone.
pub open spec fn new_pos(cmd: u8, offset: nat) -> ComponentValue {
    ComponentValue::Triple {
        x: ((cmd as int) * ((offset % 1024) as int)) as i64,
        y: 0,
        z: cmd as i64,
    }
}

/// The objects whose records carry the marker component, in store order:
/// the roots whose descendants the step moves.
pub open spec fn moved_roots(objs: Seq<ObjRecord>) -> Seq<u64>
    decreases objs.len(),
{
    if objs.len() == 0 {
        Seq::<u64>::empty()
    } else {
        let rest = moved_roots(objs.drop_last());
        if objs.last().tag.is_some() {
            rest.push(objs.last().id)
        } else {
            rest
        }
    }
}

/// One root's pass over its descendants, left to right: each target that is
/// live and holds a transform is moved to the next offset's position.
pub open spec fn apply_targets(
    objs: Seq<ObjRecord>,
    targets: Seq<u64>,
    cmd: u8,
    offset: nat,
) -> Seq<ObjRecord>
    decreases targets.len(),
{
    if targets.len() == 0 {
        objs
    } else {
        match rec_of(objs, targets[0]) {
            Some(rec) => if rec.transform.is_some() {
                apply_targets(
                    objs_with_comp(
                        objs,
                        targets[0],
                        ComponentKind::Transform,
                        Some(new_pos(cmd, offset)),
                    ),
                    targets.drop_first(),
                    cmd,
                    offset + 1,
                )
            } else {
                apply_targets(objs, targets.drop_first(), cmd, offset)
            },
            None => apply_targets(objs, targets.drop_first(), cmd, offset),
        }
    }
}

/// The step over all moved roots, in store order; each root's pass starts
/// its offsets afresh.
pub open spec fn step_roots(
    objs: Seq<ObjRecord>,
    edges: Seq<Edge>,
    roots: Seq<u64>,
    cmd: u8,
    fuel: nat,
) -> Seq<ObjRecord>
    decreases roots.len(),
{
    if roots.len() == 0 {
        objs
    } else {
        step_roots(
            apply_targets(objs, descendants_seq(edges, roots[0], fuel), cmd, 0),
            edges,
            roots.drop_first(),
            cmd,
            fuel,
        )
    }
}

/// One deterministic simulation step: for each object marked by the tag
/// component, every descendant holding a transform is moved to a position
/// computed from the frame's command and the descendant's traversal offset.
pub open spec fn step_objs(objs: Seq<ObjRecord>, edges: Seq<Edge>, cmd: u8) -> Seq<ObjRecord> {
    step_roots(objs, edges, moved_roots(objs), cmd, objs.len())
}

/// The state after simulating one frame per input set, in order.
pub open spec fn run_objs(objs: Seq<ObjRecord>, edges: Seq<Edge>, inputs: Seq<InputSet>) -> Seq<
    ObjRecord,
>
    decreases inputs.len(),
{
    if inputs.len() == 0 {
        objs
    } else {
        run_objs(step_objs(objs, edges, cmd_of(inputs[0].entries@)), edges, inputs.drop_first())
    }
}

/// The marked roots, as executable code.
fn collect_moved_roots(objs: &Vec<ObjRecord>) -> (r: Vec<u64>)
    ensures
        r@ == moved_roots(objs@),
{
    let mut r: Vec<u64> = Vec::new();
    let mut i: usize = 0;
    while i < objs.len()
        invariant
            i <= objs@.len(),
            r@ == moved_roots(objs@.take(i as int)),
        decreases objs@.len() - i,
    {
        proof {
            assert(objs@.take(i as int + 1).drop_last() =~= objs@.take(i as int));
            assert(objs@.take(i as int + 1).last() == objs@[i as int]);
        }
        let rec = objs[i];
        if rec.tag.is_some() {
            r.push(rec.id);
        }
        i += 1;
    }
    proof {
        assert(objs@.take(objs@.len() as int) =~= objs@);
    }
    r
}

/// The position for one moved descendant, as executable code.
fn position_for(cmd: u8, offset: u64) -> (r: ComponentValue)
    ensures
        r == new_pos(cmd, offset as nat),
{
    let m: i64 = (offset % 1024) as i64;
    let c: i64 = cmd as i64;
    proof {
        assert((c as int) * (m as int) <= 255 * 1023) by (nonlinear_arith)
            requires
                0 <= c <= 255,
                0 <= m <= 1023,
        ;
        assert((c as int) * (m as int) >= 0) by (nonlinear_arith)
            requires
                0 <= c,
                0 <= m,
        ;
    }
    let x: i64 = c * m;
    ComponentValue::Triple { x, y: 0, z: c }
}

/// Simulates one frame in place. The result is exactly the pure step
/// function of the pre-frame records, the edge table, and the inputs'
/// command: this is what makes re-execution after a rollback reproducible.
pub fn simulate_frame(store: &mut Store, input: &InputSet)
    requires
        old(store).wf(),
    ensures
        final(store).wf(),
        final(store).objs@ == step_objs(
            old(store).objs@,
            old(store).edges@,
            cmd_of(input.entries@),
        ),
        final(store).edges@ == old(store).edges@,
        final(store).next_id == old(store).next_id,
{
    let cmd = input.command();
    let roots = collect_moved_roots(&store.objs);
    let ghost objs0 = store.objs@;
    let ghost edges0 = store.edges@;
    let ghost n0 = objs0.len();
    proof {
        assert(roots@.skip(0) =~= roots@);
    }
    let mut i: usize = 0;
    while i < roots.len()
        invariant
            i <= roots@.len(),
            store.wf(),
            store.edges@ == edges0,
            store.next_id == old(store).next_id,
            store.objs@.len() == n0,
            step_objs(objs0, edges0, cmd) == step_roots(
                store.objs@,
                edges0,
                roots@.skip(i as int),
                cmd,
                n0,
            ),
        decreases roots@.len() - i,
    {
        proof {
            assert(roots@.skip(i as int)[0] == roots@[i as int]);
            assert(roots@.skip(i as int).drop_first() =~= roots@.skip(i as int + 1));
        }
        let root = roots[i];
        let targets = store.descendants_of(root);
        let ghost objs_start = store.objs@;
        proof {
            assert(targets@ == descendants_seq(edges0, root, n0));
            assert(targets@.skip(0) =~= targets@);
        }
        let mut offset: u64 = 0;
        let mut j: usize = 0;
        while j < targets.len()
            invariant
                j <= targets@.len(),
                offset <= j,
                store.wf(),
                store.edges@ == edges0,
                store.next_id == old(store).next_id,
                store.objs@.len() == n0,
                apply_targets(objs_start, targets@, cmd, 0) == apply_targets(
                    store.objs@,
                    targets@.skip(j as int),
                    cmd,
                    offset as nat,
                ),
            decreases targets@.len() - j,
        {
            proof {
                assert(targets@.skip(j as int)[0] == targets@[j as int]);
                assert(targets@.skip(j as int).drop_first() =~= targets@.skip(j as int + 1));
            }
            let t = targets[j];
            match store.get(t, ComponentKind::Transform) {
                Some(_) => {
                    let pos = position_for(cmd, offset);
                    let ghost pre = store.objs@;
                    match store.set(t, ComponentKind::Transform, pos) {
                        Ok(()) => {},
                        Err(_) => {},
                    }
                    proof {
                        lemma_objs_with_comp_props(
                            pre,
                            t,
                            ComponentKind::Transform,
                            Some(new_pos(cmd, offset as nat)),
                        );
                    }
                    offset = offset + 1;
                },
                None => {},
            }
            j += 1;
        }
        proof {
            assert(targets@.skip(targets@.len() as int) =~= Seq::<u64>::empty());
        }
        i += 1;
    }
    proof {
        assert(roots@.skip(roots@.len() as int) =~= Seq::<u64>::empty());
    }
}

/// A pass preserves the number and order of identities.
proof fn lemma_apply_targets_ids(objs: Seq<ObjRecord>, targets: Seq<u64>, cmd: u8, offset: nat)
    ensures
        apply_targets(objs, targets, cmd, offset).len() == objs.len(),
        forall|i: int|
            0 <= i < objs.len() ==> (#[trigger] apply_targets(objs, targets, cmd, offset)[i]).id
                == objs[i].id,
    decreases targets.len(),
{
    if targets.len() > 0 {
        match rec_of(objs, targets[0]) {
            Some(rec) => {
                if rec.transform.is_some() {
                    let objs2 = objs_with_comp(
                        objs,
                        targets[0],
                        ComponentKind::Transform,
                        Some(new_pos(cmd, offset)),
                    );
                    lemma_objs_with_comp_props(
                        objs,
                        targets[0],
                        ComponentKind::Transform,
                        Some(new_pos(cmd, offset)),
                    );
                    lemma_apply_targets_ids(objs2, targets.drop_first(), cmd, offset + 1);
                } else {
                    lemma_apply_targets_ids(objs, targets.drop_first(), cmd, offset);
                }
            },
            None => {
                lemma_apply_targets_ids(objs, targets.drop_first(), cmd, offset);
            },
        }
    }
}

/// A whole step preserves the number and order of identities.
proof fn lemma_step_roots_ids(
    objs: Seq<ObjRecord>,
    edges: Seq<Edge>,
    roots: Seq<u64>,
    cmd: u8,
    fuel: nat,
)
    ensures
        step_roots(objs, edges, roots, cmd, fuel).len() == objs.len(),
        forall|i: int|
            0 <= i < objs.len() ==> (#[trigger] step_roots(objs, edges, roots, cmd, fuel)[i]).id
                == objs[i].id,
    decreases roots.len(),
{
    if roots.len() > 0 {
        let objs2 = apply_targets(objs, descendants_seq(edges, roots[0], fuel), cmd, 0);
        lemma_apply_targets_ids(objs, descendants_seq(edges, roots[0], fuel), cmd, 0);
        lemma_step_roots_ids(objs2, edges, roots.drop_first(), cmd, fuel);
    }
}

/// A whole run preserves the number and order of identities, and so keeps
/// them unique.
pub proof fn lemma_run_ids(objs: Seq<ObjRecord>, edges: Seq<Edge>, inputs: Seq<InputSet>)
    ensures
        run_objs(objs, edges, inputs).len() == objs.len(),
        forall|i: int|
            0 <= i < objs.len() ==> (#[trigger] run_objs(objs, edges, inputs)[i]).id == objs[i].id,
        ids_unique(objs) ==> ids_unique(run_objs(objs, edges, inputs)),
    decreases inputs.len(),
{
    if inputs.len() > 0 {
        let objs2 = step_objs(objs, edges, cmd_of(inputs[0].entries@));
        lemma_step_roots_ids(objs, edges, moved_roots(objs), cmd_of(inputs[0].entries@), objs.len());
        lemma_run_ids(objs2, edges, inputs.drop_first());
    }
    if ids_unique(objs) {
        let r = run_objs(objs, edges, inputs);
        assert forall|i: int, j: int| 0 <= i < j < r.len() implies (#[trigger] r[i].id)
            != (#[trigger] r[j].id) by {
            assert(r[i].id == objs[i].id);
            assert(r[j].id == objs[j].id);
        }
    }
}

/// Running a run of frames and then more frames is running them all.
pub proof fn lemma_run_append(
    objs: Seq<ObjRecord>,
    edges: Seq<Edge>,
    s1: Seq<InputSet>,
    s2: Seq<InputSet>,
)
    ensures
        run_objs(objs, edges, s1 + s2) == run_objs(run_objs(objs, edges, s1), edges, s2),
    decreases s1.len(),
{
    if s1.len() == 0 {
        assert(s1 + s2 =~= s2);
    } else {
        assert((s1 + s2)[0] == s1[0]);
        assert((s1 + s2).drop_first() =~= s1.drop_first() + s2);
        lemma_run_append(
            step_objs(objs, edges, cmd_of(s1[0].entries@)),
            edges,
            s1.drop_first(),
            s2,
        );
    }
}

/// Extending a run by one frame steps its result once.
pub proof fn lemma_run_snoc(objs: Seq<ObjRecord>, edges: Seq<Edge>, inputs: Seq<InputSet>, x: InputSet)
    ensures
        run_objs(objs, edges, inputs.push(x)) == step_objs(
            run_objs(objs, edges, inputs),
            edges,
            cmd_of(x.entries@),
        ),
    decreases inputs.len(),
{
    let grown = inputs.push(x);
    assert(grown.len() == inputs.len() + 1);
    if inputs.len() == 0 {
        assert(grown[0] == x);
        assert(grown.drop_first() =~= Seq::<InputSet>::empty());
        assert(run_objs(objs, edges, grown) == run_objs(
            step_objs(objs, edges, cmd_of(x.entries@)),
            edges,
            grown.drop_first(),
        ));
        assert(run_objs(step_objs(objs, edges, cmd_of(x.entries@)), edges, grown.drop_first())
            == step_objs(objs, edges, cmd_of(x.entries@)));
        assert(run_objs(objs, edges, inputs) == objs);
    } else {
        assert(grown[0] == inputs[0]);
        assert(grown.drop_first() =~= inputs.drop_first().push(x));
        let stepped = step_objs(objs, edges, cmd_of(inputs[0].entries@));
        assert(run_objs(objs, edges, grown) == run_objs(stepped, edges, grown.drop_first()));
        lemma_run_snoc(stepped, edges, inputs.drop_first(), x);
        assert(run_objs(objs, edges, inputs) == run_objs(stepped, edges, inputs.drop_first()));
    }
}

/// Determinism: the outcome of a run is a function of the starting records,
/// the edge table, and the per-frame commands alone. Two runs over the same
/// state whose frames denote the same commands end bit-identical.
pub proof fn lemma_run_commands_determine(
    objs: Seq<ObjRecord>,
    edges: Seq<Edge>,
    inputs1: Seq<InputSet>,
    inputs2: Seq<InputSet>,
)
    requires
        inputs1.len() == inputs2.len(),
        forall|i: int|
            0 <= i < inputs1.len() ==> cmd_of((#[trigger] inputs1[i]).entries@) == cmd_of(
                (#[trigger] inputs2[i]).entries@,
            ),
    ensures
        run_objs(objs, edges, inputs1) == run_objs(objs, edges, inputs2),
    decreases inputs1.len(),
{
    if inputs1.len() > 0 {
        assert(cmd_of(inputs1[0].entries@) == cmd_of(inputs2[0].entries@));
        assert forall|i: int|
            0 <= i < inputs1.drop_first().len() implies cmd_of(
            (#[trigger] inputs1.drop_first()[i]).entries@,
        ) == cmd_of((#[trigger] inputs2.drop_first()[i]).entries@) by {
            assert(inputs1.drop_first()[i] == inputs1[i + 1]);
            assert(inputs2.drop_first()[i] == inputs2[i + 1]);
        }
        lemma_run_commands_determine(
            step_objs(objs, edges, cmd_of(inputs1[0].entries@)),
            edges,
            inputs1.drop_first(),
            inputs2.drop_first(),
        );
    }
}

/// Rollback equivalence: simulating a run of frames straight through equals
/// simulating a prefix, capturing, restoring that capture onto the reached
/// state, and replaying the remaining frames with the same inputs.
pub proof fn lemma_rollback_equivalence(
    objs: Seq<ObjRecord>,
    edges: Seq<Edge>,
    inputs: Seq<InputSet>,
    k: int,
)
    requires
        ids_unique(objs),
        0 <= k <= inputs.len(),
    ensures
        ({
            let mid = run_objs(objs, edges, inputs.take(k));
            run_objs(objs, edges, inputs) == run_objs(
                restore_objs(snap_objs(mid), mid),
                edges,
                inputs.skip(k),
            )
        }),
{
    let mid = run_objs(objs, edges, inputs.take(k));
    lemma_run_ids(objs, edges, inputs.take(k));
    lemma_capture_restore_identity(mid);
    lemma_run_append(objs, edges, inputs.take(k), inputs.skip(k));
    assert(inputs.take(k) + inputs.skip(k) =~= inputs);
}

/// The session controller: the sole owner of the store, the snapshot
/// engine, and the history of the inputs each simulated frame used.
pub struct Session {
    pub store: Store,
    pub engine: SnapshotEngine,
    pub inputs_used: Vec<InputSet>,
}

impl Session {
    /// The frontier: how many frames are simulated, equally the next frame
    /// to simulate.
    pub open spec fn frontier(self) -> int {
        self.inputs_used@.len() as int
    }

    /// The store and engine are well formed, and the newest retained
    /// snapshot is the one captured after the last simulated frame.
    pub open spec fn wf(self) -> bool {
        &&& self.store.wf()
        &&& self.engine.wf()
        &&& self.engine.snaps@.len() > 0
        &&& self.engine.snaps@.last().frame == self.frontier()
    }

    /// A session over a prepared initial store, retaining up to `retention`
    /// snapshots. The initial state is captured at once as the snapshot of
    /// frame zero, so that a rollback to the very first frame stays possible
    /// while the window allows.
    pub fn new(store: Store, retention: usize) -> (r: Session)
        requires
            store.wf(),
            retention >= 1,
        ensures
            r.wf(),
            r.store == store,
            r.frontier() == 0,
    {
        let snap = Snapshot::capture(&store, 0);
        let mut engine = SnapshotEngine::new(retention);
        engine.record(snap);
        Session { store, engine, inputs_used: Vec::new() }
    }

    /// How many frames are simulated, equally the next frame to simulate.
    pub fn frame_count(&self) -> (r: usize)
        ensures
            r == self.frontier(),
    {
        self.inputs_used.len()
    }

    /// Simulates the next frame with the given inputs, records them, and
    /// captures the snapshot of the new frontier.
    pub fn advance(&mut self, input: InputSet)
        requires
            old(self).wf(),
            old(self).frontier() < usize::MAX,
        ensures
            final(self).wf(),
            final(self).store.objs@ == step_objs(
                old(self).store.objs@,
                old(self).store.edges@,
                cmd_of(input.entries@),
            ),
            final(self).store.edges@ == old(self).store.edges@,
            final(self).store.next_id == old(self).store.next_id,
            final(self).inputs_used@ == old(self).inputs_used@.push(input),
            final(self).frontier() == old(self).frontier() + 1,
            final(self).engine.snaps@.last().objs@ == snap_objs(final(self).store.objs@),
            final(self).engine.snaps@.last().edges@ == final(self).store.edges@,
    {
        simulate_frame(&mut self.store, &input);
        self.inputs_used.push(input);
        let snap = Snapshot::capture(&self.store, self.inputs_used.len());
        self.engine.record(snap);
    }

    /// Applies a late-confirmed input set for `frame`. Nothing happens when
    /// the frame is not simulated yet or the confirmed inputs equal the ones
    /// used (`Ok(false)`). Otherwise the store is restored to the snapshot
    /// of `frame` and every frame from there to the frontier is replayed
    /// with the corrected history, a fresh snapshot captured after each
    /// (`Ok(true)`). Fails with `SnapshotNotFound` exactly when the needed
    /// snapshot has left the retention window; the session is then unchanged
    /// and can no longer guarantee determinism.
    pub fn handle_confirmed(&mut self, frame: usize, confirmed: InputSet) -> (r: Result<
        bool,
        RollbackError,
    >)
        requires
            old(self).wf(),
        ensures
            final(self).wf(),
            match r {
                Ok(false) => *final(self) == *old(self) && (frame >= old(self).frontier() || old(self).inputs_used@[frame as int].entries@ == confirmed.entries@),
                Ok(true) => frame < old(self).frontier() && old(self).inputs_used@[frame as int].entries@ != confirmed.entries@ && final(self).inputs_used@ == old(self).inputs_used@.update(frame as int, confirmed) && final(self).frontier() == old(self).frontier() && (match snap_lookup(
                    old(self).engine.snaps@,
                    frame,
                ) {
                    Some(snap) => final(self).store.objs@ == run_objs(
                        restore_objs(snap.objs@, old(self).store.objs@),
                        snap.edges@,
                        final(self).inputs_used@.skip(frame as int),
                    ) && final(self).store.edges@ == snap.edges@,
                    None => false,
                }),
                Err(e) => e == RollbackError::SnapshotNotFound && frame < old(self).frontier()
                    && old(self).inputs_used@[frame as int].entries@ != confirmed.entries@ && !old(self).engine.has_frame(frame) && *final(self) == *old(self),
            },
    {
        if frame >= self.inputs_used.len() {
            return Ok(false);
        }
        if inputs_equal(&self.inputs_used[frame], &confirmed) {
            return Ok(false);
        }
        match self.engine.rollback_to(frame, &mut self.store) {
            Ok(()) => {},
            Err(e) => {
                return Err(e);
            },
        }
        let ghost snap = snap_lookup(old(self).engine.snaps@, frame)->0;
        let ghost restored0 = self.store.objs@;
        self.inputs_used.set(frame, confirmed);
        let ghost hist = self.inputs_used@;
        let end = self.inputs_used.len();
        proof {
            assert(hist.subrange(frame as int, frame as int) =~= Seq::<InputSet>::empty());
        }
        let mut f: usize = frame;
        while f < end
            invariant
                frame <= f <= end,
                end == hist.len(),
                self.inputs_used@ == hist,
                self.store.wf(),
                self.engine.wf(),
                self.engine.snaps@.len() > 0,
                self.engine.snaps@.last().frame == f,
                self.store.edges@ == snap.edges@,
                self.store.objs@ == run_objs(
                    restored0,
                    snap.edges@,
                    hist.subrange(frame as int, f as int),
                ),
            decreases end - f,
        {
            proof {
                assert(hist.subrange(frame as int, f as int + 1) =~= hist.subrange(
                    frame as int,
                    f as int,
                ).push(hist[f as int]));
                lemma_run_snoc(
                    restored0,
                    snap.edges@,
                    hist.subrange(frame as int, f as int),
                    hist[f as int],
                );
            }
            let inp = &self.inputs_used[f];
            simulate_frame(&mut self.store, inp);
            let snap2 = Snapshot::capture(&self.store, f + 1);
            self.engine.record(snap2);
            f += 1;
        }
        proof {
            assert(hist.subrange(frame as int, end as int) =~= hist.skip(frame as int));
        }
        Ok(true)
    }
}

} // verus!
