//! The object store: live objects addressed by stable identity, each holding
//! a closed set of typed components, together with the hierarchy operations
//! layered on the edge table of [`crate::graph`].
//!
//! Identifiers are generated by the store and never reused: `next_id` only
//! grows, and every live identifier stays below it.

use vstd::prelude::*;
use crate::RollbackError;
use crate::graph::{
    Edge, edge, child_unique, parent_map, reachable, acyclic, reach, edge_submap, children_seq,
    edges_without, edges_without_child, descendants_seq, lemma_edges_without_props,
    lemma_edges_without_child_props, lemma_acyclic_submap, lemma_acyclic_insert,
    lemma_reach_submap, lemma_children_seq_members, lemma_parent_map_contains,
    lemma_parent_map_value, is_linked_above, remove_edges_touching, remove_edges_of_child,
    collect_children, collect_descendants, find_parent,
};

verus! {

/// The closed enumeration of component kinds. `Transform` and `Tag`
/// participate in rollback; `Derived` is transient state that a snapshot
/// never captures nor restores.
#[derive(Clone, Copy, Debug, PartialEq, Eq, Structural)]
pub enum ComponentKind {
    Transform,
    Tag,
    Derived,
}

/// A small structured component value: a three-axis integer position, or a
/// boolean marker.
#[derive(Clone, Copy, Debug, PartialEq, Eq, Structural)]
pub enum ComponentValue {
    Triple { x: i64, y: i64, z: i64 },
    Flag(bool),
}

/// Whether values of this component kind are captured and restored by
/// snapshots.
pub open spec fn is_rollback_tagged(kind: ComponentKind) -> bool {
    match kind {
        ComponentKind::Transform => true,
        ComponentKind::Tag => true,
        ComponentKind::Derived => false,
    }
}

/// One live object: its identity and one optional slot per component kind.
#[derive(Clone, Copy, Debug, PartialEq, Eq, Structural)]
pub struct ObjRecord {
    pub id: u64,
    pub transform: Option<ComponentValue>,
    pub tag: Option<ComponentValue>,
    pub derived: Option<ComponentValue>,
}

/// A freshly created object: no components attached.
pub open spec fn blank_rec(id: u64) -> ObjRecord {
    ObjRecord { id, transform: None, tag: None, derived: None }
}

/// The component slot of `rec` for `kind`.
pub open spec fn comp_of(rec: ObjRecord, kind: ComponentKind) -> Option<ComponentValue> {
    match kind {
        ComponentKind::Transform => rec.transform,
        ComponentKind::Tag => rec.tag,
        ComponentKind::Derived => rec.derived,
    }
}

/// `rec` with its slot for `kind` replaced by `v`.
pub open spec fn with_comp(rec: ObjRecord, kind: ComponentKind, v: Option<ComponentValue>) -> ObjRecord {
    match kind {
        ComponentKind::Transform => ObjRecord { transform: v, ..rec },
        ComponentKind::Tag => ObjRecord { tag: v, ..rec },
        ComponentKind::Derived => ObjRecord { derived: v, ..rec },
    }
}

/// The first record with the given identity, if any.
pub open spec fn rec_of(objs: Seq<ObjRecord>, id: u64) -> Option<ObjRecord>
    decreases objs.len(),
{
    if objs.len() == 0 {
        None
    } else if objs[0].id == id {
        Some(objs[0])
    } else {
        rec_of(objs.drop_first(), id)
    }
}

/// No two records share an identity.
pub open spec fn ids_unique(objs: Seq<ObjRecord>) -> bool {
    forall|i: int, j: int|
        0 <= i < j < objs.len() ==> (#[trigger] objs[i].id) != (#[trigger] objs[j].id)
}

/// The records with the first record of identity `id` updated on slot `kind`.
pub open spec fn objs_with_comp(
    objs: Seq<ObjRecord>,
    id: u64,
    kind: ComponentKind,
    v: Option<ComponentValue>,
) -> Seq<ObjRecord>
    decreases objs.len(),
{
    if objs.len() == 0 {
        objs
    } else if objs[0].id == id {
        seq![with_comp(objs[0], kind, v)] + objs.drop_first()
    } else {
        seq![objs[0]] + objs_with_comp(objs.drop_first(), id, kind, v)
    }
}

/// The records with the first record of identity `id` removed.
pub open spec fn objs_without(objs: Seq<ObjRecord>, id: u64) -> Seq<ObjRecord>
    decreases objs.len(),
{
    if objs.len() == 0 {
        objs
    } else if objs[0].id == id {
        objs.drop_first()
    } else {
        seq![objs[0]] + objs_without(objs.drop_first(), id)
    }
}

/// Identity uniqueness carries over to the tail of the record list.
pub proof fn lemma_ids_unique_drop_first(objs: Seq<ObjRecord>)
    requires
        ids_unique(objs),
        objs.len() > 0,
    ensures
        ids_unique(objs.drop_first()),
{
    assert forall|i: int, j: int| 0 <= i < j < objs.drop_first().len() implies
        (#[trigger] objs.drop_first()[i].id) != (#[trigger] objs.drop_first()[j].id) by {
        assert(objs.drop_first()[i] == objs[i + 1]);
        assert(objs.drop_first()[j] == objs[j + 1]);
    }
}

/// A record of identity `id` exists exactly when the lookup succeeds.
pub proof fn lemma_rec_of_exists(objs: Seq<ObjRecord>, id: u64)
    ensures
        rec_of(objs, id).is_some() <==> exists|i: int|
            0 <= i < objs.len() && (#[trigger] objs[i]).id == id,
    decreases objs.len(),
{
    if objs.len() > 0 {
        lemma_rec_of_exists(objs.drop_first(), id);
        if objs[0].id == id {
            assert(objs[0].id == id);
        } else {
            if rec_of(objs, id).is_some() {
                let i = choose|i: int|
                    0 <= i < objs.drop_first().len() && (#[trigger] objs.drop_first()[i]).id == id;
                assert(objs[i + 1].id == id);
            }
            if exists|i: int| 0 <= i < objs.len() && (#[trigger] objs[i]).id == id {
                let i = choose|i: int| 0 <= i < objs.len() && (#[trigger] objs[i]).id == id;
                assert(objs.drop_first()[i - 1].id == id);
            }
        }
    }
}

/// Under uniqueness, the lookup of a record's own identity yields it.
pub proof fn lemma_rec_of_index(objs: Seq<ObjRecord>, i: int)
    requires
        ids_unique(objs),
        0 <= i < objs.len(),
    ensures
        rec_of(objs, objs[i].id) == Some(objs[i]),
    decreases objs.len(),
{
    if i > 0 {
        assert(objs[0].id != objs[i].id);
        lemma_ids_unique_drop_first(objs);
        assert(objs.drop_first()[i - 1] == objs[i]);
        lemma_rec_of_index(objs.drop_first(), i - 1);
    }
}

/// Appending a fresh record changes no existing lookup and adds one.
pub proof fn lemma_rec_of_push(objs: Seq<ObjRecord>, rec: ObjRecord, id: u64)
    ensures
        rec_of(objs.push(rec), id) == (if rec_of(objs, id).is_some() {
            rec_of(objs, id)
        } else if rec.id == id {
            Some(rec)
        } else {
            None::<ObjRecord>
        }),
    decreases objs.len(),
{
    if objs.len() == 0 {
        assert(objs.push(rec) =~= seq![rec]);
    } else {
        assert(objs.push(rec)[0] == objs[0]);
        assert(objs.push(rec).drop_first() =~= objs.drop_first().push(rec));
        lemma_rec_of_push(objs.drop_first(), rec, id);
    }
}

/// How a component update shows through every lookup: the identities and
/// order are untouched, and only the one record's one slot changes.
pub proof fn lemma_objs_with_comp_props(
    objs: Seq<ObjRecord>,
    id: u64,
    kind: ComponentKind,
    v: Option<ComponentValue>,
)
    ensures
        objs_with_comp(objs, id, kind, v).len() == objs.len(),
        forall|i: int|
            0 <= i < objs.len() ==> (#[trigger] objs_with_comp(objs, id, kind, v)[i]).id == objs[i].id,
        forall|id2: u64|
            #[trigger] rec_of(objs_with_comp(objs, id, kind, v), id2) == (match rec_of(objs, id) {
                Some(prior) => if id2 == id {
                    Some(with_comp(prior, kind, v))
                } else {
                    rec_of(objs, id2)
                },
                None => rec_of(objs, id2),
            }),
    decreases objs.len(),
{
    if objs.len() > 0 {
        let rest = objs.drop_first();
        if objs[0].id == id {
            let r = seq![with_comp(objs[0], kind, v)] + rest;
            assert(objs_with_comp(objs, id, kind, v) == r);
            assert(r.drop_first() =~= rest);
            assert forall|i: int| 0 <= i < objs.len() implies (#[trigger] r[i]).id == objs[i].id by {
                if i > 0 {
                    assert(r[i] == rest[i - 1]);
                }
            }
            assert forall|id2: u64|
                #[trigger] rec_of(r, id2) == (match rec_of(objs, id) {
                    Some(prior) => if id2 == id {
                        Some(with_comp(prior, kind, v))
                    } else {
                        rec_of(objs, id2)
                    },
                    None => rec_of(objs, id2),
                }) by {
                assert(r[0] == with_comp(objs[0], kind, v));
                assert(r[0].id == id);
                assert(rec_of(objs, id) == Some(objs[0]));
                if id2 != id {
                    assert(rec_of(r, id2) == rec_of(rest, id2));
                    assert(rec_of(objs, id2) == rec_of(rest, id2));
                }
            }
        } else {
            lemma_objs_with_comp_props(rest, id, kind, v);
            let r = seq![objs[0]] + objs_with_comp(rest, id, kind, v);
            assert(objs_with_comp(objs, id, kind, v) == r);
            assert(r.drop_first() =~= objs_with_comp(rest, id, kind, v));
            assert forall|i: int| 0 <= i < objs.len() implies (#[trigger] r[i]).id == objs[i].id by {
                if i > 0 {
                    assert(r[i] == objs_with_comp(rest, id, kind, v)[i - 1]);
                    assert(rest[i - 1] == objs[i]);
                }
            }
            assert forall|id2: u64|
                #[trigger] rec_of(r, id2) == (match rec_of(objs, id) {
                    Some(prior) => if id2 == id {
                        Some(with_comp(prior, kind, v))
                    } else {
                        rec_of(objs, id2)
                    },
                    None => rec_of(objs, id2),
                }) by {
                assert(r[0] == objs[0]);
                if id2 == objs[0].id {
                    assert(rec_of(r, id2) == Some(objs[0]));
                    assert(rec_of(objs, id2) == Some(objs[0]));
                } else {
                    assert(rec_of(r, id2) == rec_of(objs_with_comp(rest, id, kind, v), id2));
                    assert(rec_of(objs, id2) == rec_of(rest, id2));
                }
            }
        }
    }
}

/// How a removal shows through every lookup: the removed identity is gone,
/// every other lookup is untouched, and the kept records all come from the
/// original list.
pub proof fn lemma_objs_without_props(objs: Seq<ObjRecord>, id: u64)
    requires
        ids_unique(objs),
    ensures
        ids_unique(objs_without(objs, id)),
        forall|i: int|
            0 <= i < objs_without(objs, id).len() ==> objs.contains(#[trigger] objs_without(objs, id)[i]),
        forall|id2: u64|
            #[trigger] rec_of(objs_without(objs, id), id2) == (if id2 == id {
                None::<ObjRecord>
            } else {
                rec_of(objs, id2)
            }),
    decreases objs.len(),
{
    if objs.len() > 0 {
        let rest = objs.drop_first();
        lemma_ids_unique_drop_first(objs);
        assert forall|i: int| 0 <= i < rest.len() implies objs.contains(#[trigger] rest[i]) by {
            assert(objs[i + 1] == rest[i]);
        }
        if objs[0].id == id {
            assert(objs_without(objs, id) == rest);
            assert forall|id2: u64| #[trigger] rec_of(rest, id2) == (if id2 == id {
                None::<ObjRecord>
            } else {
                rec_of(objs, id2)
            }) by {
                if id2 == id {
                    lemma_rec_of_exists(rest, id);
                    if rec_of(rest, id).is_some() {
                        let i = choose|i: int| 0 <= i < rest.len() && (#[trigger] rest[i]).id == id;
                        assert(objs[i + 1].id == objs[0].id);
                    }
                } else {
                    assert(rec_of(objs, id2) == rec_of(rest, id2));
                }
            }
        } else {
            lemma_objs_without_props(rest, id);
            let r = seq![objs[0]] + objs_without(rest, id);
            assert(objs_without(objs, id) == r);
            assert(r.drop_first() =~= objs_without(rest, id));
            assert forall|id2: u64| #[trigger] rec_of(r, id2) == (if id2 == id {
                None::<ObjRecord>
            } else {
                rec_of(objs, id2)
            }) by {
                assert(r[0] == objs[0]);
                if id2 == objs[0].id {
                    assert(rec_of(r, id2) == Some(objs[0]));
                    assert(rec_of(objs, id2) == Some(objs[0]));
                } else {
                    assert(rec_of(r, id2) == rec_of(objs_without(rest, id), id2));
                    assert(rec_of(objs, id2) == rec_of(rest, id2));
                }
            }
            assert forall|i: int| 0 <= i < r.len() implies objs.contains(#[trigger] r[i]) by {
                if i == 0 {
                    assert(objs[0] == r[0]);
                } else {
                    assert(rest.contains(r[i]));
                    let w = choose|w: int| 0 <= w < rest.len() && rest[w] == r[i];
                    assert(objs[w + 1] == r[i]);
                }
            }
            assert forall|i: int, j: int| 0 <= i < j < r.len() implies
                (#[trigger] r[i].id) != (#[trigger] r[j].id) by {
                if i == 0 {
                    assert(rest.contains(r[j]));
                    let w = choose|w: int| 0 <= w < rest.len() && rest[w] == r[j];
                    assert(objs[w + 1].id == r[j].id);
                    assert(objs[0].id != objs[w + 1].id);
                } else {
                    assert(r[i] == objs_without(rest, id)[i - 1]);
                    assert(r[j] == objs_without(rest, id)[j - 1]);
                }
            }
        }
    }
}

/// A component update leaves any unmatched prefix of the record list alone.
proof fn lemma_objs_with_comp_split(
    objs: Seq<ObjRecord>,
    id: u64,
    kind: ComponentKind,
    v: Option<ComponentValue>,
    i: int,
)
    requires
        0 <= i <= objs.len(),
        forall|j: int| 0 <= j < i ==> (#[trigger] objs[j]).id != id,
    ensures
        objs_with_comp(objs, id, kind, v) == objs.take(i) + objs_with_comp(
            objs.skip(i),
            id,
            kind,
            v,
        ),
    decreases i,
{
    if i == 0 {
        assert(objs.skip(0) =~= objs);
        assert(objs.take(0) + objs_with_comp(objs, id, kind, v) =~= objs_with_comp(
            objs,
            id,
            kind,
            v,
        ));
    } else {
        let rest = objs.drop_first();
        assert(objs[0].id != id);
        assert forall|j: int| 0 <= j < i - 1 implies (#[trigger] rest[j]).id != id by {
            assert(rest[j] == objs[j + 1]);
        }
        lemma_objs_with_comp_split(rest, id, kind, v, i - 1);
        assert(rest.skip(i - 1) =~= objs.skip(i));
        assert(seq![objs[0]] + (rest.take(i - 1) + objs_with_comp(objs.skip(i), id, kind, v))
            =~= objs.take(i) + objs_with_comp(objs.skip(i), id, kind, v));
    }
}

/// A removal leaves any unmatched prefix of the record list alone.
proof fn lemma_objs_without_split(objs: Seq<ObjRecord>, id: u64, i: int)
    requires
        0 <= i <= objs.len(),
        forall|j: int| 0 <= j < i ==> (#[trigger] objs[j]).id != id,
    ensures
        objs_without(objs, id) == objs.take(i) + objs_without(objs.skip(i), id),
    decreases i,
{
    if i == 0 {
        assert(objs.skip(0) =~= objs);
        assert(objs.take(0) + objs_without(objs, id) =~= objs_without(objs, id));
    } else {
        let rest = objs.drop_first();
        assert(objs[0].id != id);
        assert forall|j: int| 0 <= j < i - 1 implies (#[trigger] rest[j]).id != id by {
            assert(rest[j] == objs[j + 1]);
        }
        lemma_objs_without_split(rest, id, i - 1);
        assert(rest.skip(i - 1) =~= objs.skip(i));
        assert(seq![objs[0]] + (rest.take(i - 1) + objs_without(objs.skip(i), id)) =~= objs.take(i)
            + objs_without(objs.skip(i), id));
    }
}

/// The index of the record with identity `id`, if one is live.
fn find_index(objs: &Vec<ObjRecord>, id: u64) -> (r: Option<usize>)
    ensures
        match r {
            Some(i) => i < objs@.len() && objs@[i as int].id == id && rec_of(objs@, id) == Some(
                objs@[i as int],
            ) && (forall|j: int| 0 <= j < i ==> (#[trigger] objs@[j]).id != id),
            None => rec_of(objs@, id).is_none(),
        },
{
    proof {
        assert(objs@.skip(0) =~= objs@);
    }
    let mut i: usize = 0;
    while i < objs.len()
        invariant
            i <= objs@.len(),
            forall|j: int| 0 <= j < i ==> (#[trigger] objs@[j]).id != id,
            rec_of(objs@, id) == rec_of(objs@.skip(i as int), id),
        decreases objs@.len() - i,
    {
        proof {
            assert(objs@.skip(i as int)[0] == objs@[i as int]);
            assert(objs@.skip(i as int).drop_first() =~= objs@.skip(i as int + 1));
        }
        if objs[i].id == id {
            return Some(i);
        }
        i += 1;
    }
    proof {
        assert(objs@.skip(objs@.len() as int) =~= Seq::<ObjRecord>::empty());
    }
    None
}

/// The store of live objects and their graph: the single owner of all
/// simulation state between snapshots.
pub struct Store {
    pub objs: Vec<ObjRecord>,
    pub edges: Vec<Edge>,
    pub next_id: u64,
}

impl Store {
    /// An object with this identity is live.
    pub open spec fn is_live(self, id: u64) -> bool {
        rec_of(self.objs@, id).is_some()
    }

    /// The child-to-parent map the edge table denotes.
    pub open spec fn pmap(self) -> Map<u64, u64> {
        parent_map(self.edges@)
    }

    /// The component slot of the object `id` for `kind`; `None` when the
    /// object is not live or holds no such component.
    pub open spec fn comp_get(self, id: u64, kind: ComponentKind) -> Option<ComponentValue> {
        match rec_of(self.objs@, id) {
            Some(rec) => comp_of(rec, kind),
            None => None,
        }
    }

    /// Structural consistency: identities unique and below `next_id`, at most
    /// one parent per child, every edge between live objects, and no cycle.
    pub open spec fn wf(self) -> bool {
        &&& ids_unique(self.objs@)
        &&& child_unique(self.edges@)
        &&& forall|i: int|
            0 <= i < self.edges@.len() ==> self.is_live((#[trigger] self.edges@[i]).child)
                && self.is_live(self.edges@[i].parent)
        &&& acyclic(self.pmap())
        &&& forall|i: int| 0 <= i < self.objs@.len() ==> (#[trigger] self.objs@[i]).id < self.next_id
    }

    /// An empty store.
    pub fn new() -> (r: Store)
        ensures
            r.wf(),
            r.objs@.len() == 0,
            r.edges@.len() == 0,
            r.next_id == 0,
    {
        let r = Store { objs: Vec::new(), edges: Vec::new(), next_id: 0 };
        proof {
            assert(r.pmap() =~= Map::<u64, u64>::empty());
            assert forall|a: u64| crate::graph::ends(r.pmap(), a, 0) by {}
            assert(crate::graph::bounded(r.pmap(), 0));
        }
        r
    }

    /// The identifier space is exhausted; no further object can be created.
    pub fn at_capacity(&self) -> (r: bool)
        ensures
            r == (self.next_id == u64::MAX),
    {
        self.next_id == u64::MAX
    }

    /// Whether an object with this identity is live.
    pub fn contains(&self, id: u64) -> (r: bool)
        ensures
            r == self.is_live(id),
    {
        find_index(&self.objs, id).is_some()
    }

    /// The number of live objects.
    pub fn object_count(&self) -> (r: usize)
        ensures
            r == self.objs@.len(),
    {
        self.objs.len()
    }

    /// Creates a fresh object with no components and returns its identity,
    /// which was never live before and never will be handed out again.
    pub fn create(&mut self) -> (r: u64)
        requires
            old(self).wf(),
            old(self).next_id < u64::MAX,
        ensures
            final(self).wf(),
            r == old(self).next_id,
            !old(self).is_live(r),
            final(self).is_live(r),
            final(self).objs@ == old(self).objs@.push(blank_rec(r)),
            final(self).edges@ == old(self).edges@,
            final(self).next_id == old(self).next_id + 1,
    {
        let id = self.next_id;
        let rec = ObjRecord { id, transform: None, tag: None, derived: None };
        proof {
            lemma_rec_of_exists(self.objs@, id);
            if rec_of(self.objs@, id).is_some() {
                let i = choose|i: int|
                    0 <= i < self.objs@.len() && (#[trigger] self.objs@[i]).id == id;
                assert(self.objs@[i].id < self.next_id);
            }
        }
        self.objs.push(rec);
        self.next_id = self.next_id + 1;
        proof {
            let prior = old(self).objs@;
            assert(rec == blank_rec(id));
            lemma_rec_of_push(prior, rec, id);
            assert forall|i: int|
                0 <= i < self.edges@.len() implies self.is_live(
                (#[trigger] self.edges@[i]).child,
            ) && self.is_live(self.edges@[i].parent) by {
                lemma_rec_of_push(prior, rec, self.edges@[i].child);
                lemma_rec_of_push(prior, rec, self.edges@[i].parent);
            }
        }
        id
    }

    /// Destroys a live object: the object, its components, and every edge
    /// touching it are removed together. Fails exactly when `id` is not live,
    /// leaving the store unchanged.
    pub fn destroy(&mut self, id: u64) -> (r: Result<(), RollbackError>)
        requires
            old(self).wf(),
        ensures
            final(self).wf(),
            match r {
                Ok(()) => old(self).is_live(id) && !final(self).is_live(id) && final(self).objs@
                    == objs_without(old(self).objs@, id) && final(self).edges@ == edges_without(
                    old(self).edges@,
                    id,
                ) && final(self).next_id == old(self).next_id,
                Err(e) => e == RollbackError::UnknownObject && !old(self).is_live(id)
                    && *final(self) == *old(self),
            },
    {
        let idx = match find_index(&self.objs, id) {
            Some(i) => i,
            None => {
                return Err(RollbackError::UnknownObject);
            },
        };
        let ghost prior = *self;
        let new_edges = remove_edges_touching(&self.edges, id);
        self.edges = new_edges;
        self.objs.remove(idx);
        proof {
            lemma_objs_without_split(prior.objs@, id, idx as int);
            assert(objs_without(prior.objs@.skip(idx as int), id) =~= prior.objs@.skip(
                idx as int + 1,
            ));
            assert(self.objs@ =~= objs_without(prior.objs@, id));
            lemma_objs_without_props(prior.objs@, id);
            lemma_edges_without_props(prior.edges@, id);
            assert forall|i: int|
                0 <= i < self.edges@.len() implies self.is_live(
                (#[trigger] self.edges@[i]).child,
            ) && self.is_live(self.edges@[i].parent) by {
                assert(prior.edges@.contains(self.edges@[i]));
                let w = choose|w: int|
                    0 <= w < prior.edges@.len() && prior.edges@[w] == self.edges@[i];
                assert(prior.is_live(prior.edges@[w].child) && prior.is_live(
                    prior.edges@[w].parent,
                ));
            }
            lemma_acyclic_submap(prior.pmap(), self.pmap());
            assert forall|i: int|
                0 <= i < self.objs@.len() implies (#[trigger] self.objs@[i]).id < self.next_id by {
                assert(prior.objs@.contains(self.objs@[i]));
                let w = choose|w: int| 0 <= w < prior.objs@.len() && prior.objs@[w] == self.objs@[i];
                assert(prior.objs@[w].id < prior.next_id);
            }
        }
        Ok(())
    }

    /// Replaces the slot of `kind` on the object `id`, reporting whether the
    /// object was live; everything else in the store is untouched.
    fn update_comp(&mut self, id: u64, kind: ComponentKind, value: ComponentValue) -> (found: bool)
        requires
            old(self).wf(),
        ensures
            final(self).wf(),
            found == old(self).is_live(id),
            !found ==> *final(self) == *old(self),
            found ==> final(self).objs@ == objs_with_comp(old(self).objs@, id, kind, Some(value))
                && final(self).comp_get(id, kind) == Some(value) && (forall|
                id2: u64,
                kind2: ComponentKind,
            |
                !(id2 == id && kind2 == kind) ==> final(self).comp_get(id2, kind2) == old(
                    self,
                ).comp_get(id2, kind2)) && (forall|id2: u64|
                final(self).is_live(id2) == old(self).is_live(id2)) && final(self).edges@ == old(
                self,
            ).edges@ && final(self).next_id == old(self).next_id,
    {
        let idx = match find_index(&self.objs, id) {
            Some(i) => i,
            None => {
                return false;
            },
        };
        let ghost prior = *self;
        let rec = self.objs[idx];
        let updated = set_slot(rec, kind, Some(value));
        self.objs.set(idx, updated);
        proof {
            let v = Some(value);
            let newv = objs_with_comp(prior.objs@, id, kind, v);
            lemma_objs_with_comp_split(prior.objs@, id, kind, v, idx as int);
            assert(prior.objs@.skip(idx as int)[0] == prior.objs@[idx as int]);
            assert(prior.objs@.skip(idx as int).drop_first() =~= prior.objs@.skip(idx as int + 1));
            assert(objs_with_comp(prior.objs@.skip(idx as int), id, kind, v) == seq![
                with_comp(prior.objs@[idx as int], kind, v),
            ] + prior.objs@.skip(idx as int + 1));
            assert(self.objs@ =~= newv);
            lemma_objs_with_comp_props(prior.objs@, id, kind, v);
            assert forall|id2: u64| rec_of(self.objs@, id2) == (if id2 == id {
                Some(with_comp(prior.objs@[idx as int], kind, v))
            } else {
                rec_of(prior.objs@, id2)
            }) by {
                assert(rec_of(newv, id2) == rec_of(self.objs@, id2));
                assert(rec_of(prior.objs@, id) == Some(prior.objs@[idx as int]));
            }
            assert forall|i: int, j: int| 0 <= i < j < self.objs@.len() implies (#[trigger] self
                .objs@[i].id) != (#[trigger] self.objs@[j].id) by {
                assert(newv[i].id == prior.objs@[i].id);
                assert(newv[j].id == prior.objs@[j].id);
            }
            assert forall|i: int|
                0 <= i < self.edges@.len() implies self.is_live(
                (#[trigger] self.edges@[i]).child,
            ) && self.is_live(self.edges@[i].parent) by {
                assert(prior.is_live(prior.edges@[i].child));
                assert(prior.is_live(prior.edges@[i].parent));
            }
            assert forall|i: int|
                0 <= i < self.objs@.len() implies (#[trigger] self.objs@[i]).id < self.next_id by {
                assert(newv[i].id == prior.objs@[i].id);
                assert(prior.objs@[i].id < prior.next_id);
            }
        }
        true
    }

    /// Attaches (or overwrites) the component of `kind` on a live object.
    /// Fails exactly when `id` is not live, leaving the store unchanged.
    pub fn attach(&mut self, id: u64, kind: ComponentKind, value: ComponentValue) -> (r: Result<
        (),
        RollbackError,
    >)
        requires
            old(self).wf(),
        ensures
            final(self).wf(),
            match r {
                Ok(()) => old(self).is_live(id) && final(self).objs@ == objs_with_comp(
                    old(self).objs@,
                    id,
                    kind,
                    Some(value),
                ) && final(self).comp_get(id, kind) == Some(value) && (forall|
                    id2: u64,
                    kind2: ComponentKind,
                |
                    !(id2 == id && kind2 == kind) ==> final(self).comp_get(id2, kind2) == old(
                        self,
                    ).comp_get(id2, kind2)) && (forall|id2: u64|
                    final(self).is_live(id2) == old(self).is_live(id2)) && final(self).edges@
                    == old(self).edges@ && final(self).next_id == old(self).next_id,
                Err(e) => e == RollbackError::UnknownObject && !old(self).is_live(id)
                    && *final(self) == *old(self),
            },
    {
        if self.update_comp(id, kind, value) {
            Ok(())
        } else {
            Err(RollbackError::UnknownObject)
        }
    }

    /// The component of `kind` on the object `id`: `None` when the object is
    /// not live or holds no such component.
    pub fn get(&self, id: u64, kind: ComponentKind) -> (r: Option<ComponentValue>)
        ensures
            r == self.comp_get(id, kind),
    {
        match find_index(&self.objs, id) {
            Some(i) => {
                let rec = self.objs[i];
                match kind {
                    ComponentKind::Transform => rec.transform,
                    ComponentKind::Tag => rec.tag,
                    ComponentKind::Derived => rec.derived,
                }
            },
            None => None,
        }
    }

    /// Overwrites a component the object already holds. Fails with
    /// `UnknownObject` when `id` is not live and with `ComponentAbsent` when
    /// the live object has no component of `kind`; either failure leaves the
    /// store unchanged.
    pub fn set(&mut self, id: u64, kind: ComponentKind, value: ComponentValue) -> (r: Result<
        (),
        RollbackError,
    >)
        requires
            old(self).wf(),
        ensures
            final(self).wf(),
            match r {
                Ok(()) => old(self).is_live(id) && old(self).comp_get(id, kind).is_some() && final(self).objs@ == objs_with_comp(old(self).objs@, id, kind, Some(value)) && final(self).comp_get(id, kind) == Some(value) && (forall|id2: u64, kind2: ComponentKind|
                    !(id2 == id && kind2 == kind) ==> final(self).comp_get(id2, kind2) == old(
                        self,
                    ).comp_get(id2, kind2)) && (forall|id2: u64|
                    final(self).is_live(id2) == old(self).is_live(id2)) && final(self).edges@
                    == old(self).edges@ && final(self).next_id == old(self).next_id,
                Err(e) => *final(self) == *old(self) && ((e == RollbackError::UnknownObject && !old(
                    self,
                ).is_live(id)) || (e == RollbackError::ComponentAbsent && old(self).is_live(id)
                    && old(self).comp_get(id, kind).is_none())),
            },
    {
        if !self.contains(id) {
            return Err(RollbackError::UnknownObject);
        }
        if self.get(id, kind).is_none() {
            return Err(RollbackError::ComponentAbsent);
        }
        self.update_comp(id, kind, value);
        Ok(())
    }

    /// Makes `parent` the parent of `child`, overwriting any prior parent of
    /// `child`. Fails with `UnknownObject` when either is not live, and with
    /// `CycleDetected` when `child` is `parent` or stands above it in the
    /// hierarchy; either failure leaves the store unchanged.
    pub fn set_parent(&mut self, child: u64, parent: u64) -> (r: Result<(), RollbackError>)
        requires
            old(self).wf(),
        ensures
            final(self).wf(),
            match r {
                Ok(()) => old(self).is_live(child) && old(self).is_live(parent) && !reachable(
                    old(self).pmap(),
                    parent,
                    child,
                ) && final(self).edges@ == edges_without_child(old(self).edges@, child).push(
                    edge(child, parent),
                ) && final(self).pmap() == old(self).pmap().insert(child, parent) && final(self).objs@ == old(self).objs@ && final(self).next_id == old(self).next_id,
                Err(e) => *final(self) == *old(self) && ((e == RollbackError::UnknownObject && (
                !old(self).is_live(child) || !old(self).is_live(parent))) || (e
                    == RollbackError::CycleDetected && old(self).is_live(child) && old(
                    self,
                ).is_live(parent) && reachable(old(self).pmap(), parent, child))),
            },
    {
        if !self.contains(child) || !self.contains(parent) {
            return Err(RollbackError::UnknownObject);
        }
        if is_linked_above(&self.edges, parent, child) {
            return Err(RollbackError::CycleDetected);
        }
        let ghost prior = *self;
        let mut kept = remove_edges_of_child(&self.edges, child);
        kept.push(Edge { child, parent });
        self.edges = kept;
        proof {
            let m = prior.pmap();
            lemma_edges_without_child_props(prior.edges@, child);
            let keptv = edges_without_child(prior.edges@, child);
            let mf = parent_map(keptv);
            assert(self.edges@ == keptv.push(edge(child, parent)));
            assert forall|i: int, j: int| 0 <= i < j < self.edges@.len() implies (#[trigger] self
                .edges@[i].child) != (#[trigger] self.edges@[j].child) by {
                if j == self.edges@.len() - 1 {
                    assert(self.edges@[i] == keptv[i]);
                    assert(keptv[i].child != child);
                } else {
                    assert(self.edges@[i] == keptv[i] && self.edges@[j] == keptv[j]);
                }
            }
            assert(self.edges@.drop_last() =~= keptv);
            assert(self.edges@.last() == edge(child, parent));
            assert(parent_map(self.edges@) == mf.insert(child, parent));
            assert(mf == m.remove(child));
            assert(parent_map(self.edges@) =~= m.insert(child, parent));
            assert(edge_submap(mf, m));
            if reachable(mf, parent, child) {
                let f = choose|f: nat| reach(mf, parent, child, f);
                lemma_reach_submap(m, mf, parent, child, f);
                assert(reach(m, parent, child, f));
            }
            lemma_acyclic_submap(m, mf);
            lemma_acyclic_insert(mf, child, parent);
            assert forall|i: int|
                0 <= i < self.edges@.len() implies self.is_live(
                (#[trigger] self.edges@[i]).child,
            ) && self.is_live(self.edges@[i].parent) by {
                if i == self.edges@.len() - 1 {
                } else {
                    assert(self.edges@[i] == keptv[i]);
                    assert(prior.edges@.contains(keptv[i]));
                    let w = choose|w: int|
                        0 <= w < prior.edges@.len() && prior.edges@[w] == keptv[i];
                    assert(prior.is_live(prior.edges@[w].child) && prior.is_live(
                        prior.edges@[w].parent,
                    ));
                }
            }
        }
        Ok(())
    }

    /// Detaches `child` from any parent. Fails exactly when `child` is not
    /// live, leaving the store unchanged.
    pub fn clear_parent(&mut self, child: u64) -> (r: Result<(), RollbackError>)
        requires
            old(self).wf(),
        ensures
            final(self).wf(),
            match r {
                Ok(()) => old(self).is_live(child) && final(self).edges@ == edges_without_child(
                    old(self).edges@,
                    child,
                ) && final(self).pmap() == old(self).pmap().remove(child) && final(self).objs@
                    == old(self).objs@ && final(self).next_id == old(self).next_id,
                Err(e) => e == RollbackError::UnknownObject && !old(self).is_live(child)
                    && *final(self) == *old(self),
            },
    {
        if !self.contains(child) {
            return Err(RollbackError::UnknownObject);
        }
        let ghost prior = *self;
        let kept = remove_edges_of_child(&self.edges, child);
        self.edges = kept;
        proof {
            lemma_edges_without_child_props(prior.edges@, child);
            let keptv = edges_without_child(prior.edges@, child);
            assert(edge_submap(parent_map(keptv), prior.pmap()));
            lemma_acyclic_submap(prior.pmap(), parent_map(keptv));
            assert forall|i: int|
                0 <= i < self.edges@.len() implies self.is_live(
                (#[trigger] self.edges@[i]).child,
            ) && self.is_live(self.edges@[i].parent) by {
                assert(prior.edges@.contains(keptv[i]));
                let w = choose|w: int| 0 <= w < prior.edges@.len() && prior.edges@[w] == keptv[i];
                assert(prior.is_live(prior.edges@[w].child) && prior.is_live(
                    prior.edges@[w].parent,
                ));
            }
        }
        Ok(())
    }

    /// The recorded parent of `id`, if any.
    pub fn parent_of(&self, id: u64) -> (r: Option<u64>)
        requires
            self.wf(),
        ensures
            self.pmap().contains_key(id) ==> r == Some(self.pmap()[id]),
            !self.pmap().contains_key(id) ==> r.is_none(),
    {
        find_parent(&self.edges, id)
    }

    /// The children of `id`, in the order their parent assignments were made.
    /// Defined for any identity: an object with no recorded children yields
    /// the empty sequence.
    pub fn children_of(&self, id: u64) -> (r: Vec<u64>)
        ensures
            r@ == children_seq(self.edges@, id),
    {
        collect_children(&self.edges, id)
    }

    /// All objects transitively parented under `id`, depth-first, children in
    /// insertion order. Defined for any identity, bounded by the live-object
    /// count, and valid immediately after any restore, because it is computed
    /// from the current edge table alone.
    pub fn descendants_of(&self, id: u64) -> (r: Vec<u64>)
        ensures
            r@ == descendants_seq(self.edges@, id, self.objs@.len() as nat),
    {
        collect_descendants(&self.edges, id, self.objs.len())
    }
}

/// The traversal below `root` lists every object standing below it. In a
/// well-formed store the parent chains are acyclic and run over live
/// objects, so no chain is longer than the live-object count, which is the
/// depth bound `descendants_of` traverses with.
pub proof fn lemma_descendants_of_complete(s: Store, root: u64, x: u64)
    requires
        s.wf(),
        x != root,
        s.pmap().contains_key(x),
        reachable(s.pmap(), x, root),
    ensures
        descendants_seq(s.edges@, root, s.objs@.len() as nat).contains(x),
{
    broadcast use vstd::seq_lib::seq_to_set_is_finite;
    broadcast use vstd::set::group_set_axioms;

    let m = s.pmap();
    let f = choose|f: nat| reach(m, x, root, f);
    let chain = crate::graph::make_chain(m, x, root, f);
    crate::graph::lemma_chain_no_duplicates(m, chain);
    let ids = s.objs@.map_values(|o: ObjRecord| o.id);
    assert(ids.len() == s.objs@.len());
    assert forall|k: int| 0 <= k < chain.len() implies ids.contains(#[trigger] chain[k]) by {
        let node = chain[k];
        if k < chain.len() - 1 {
            lemma_parent_map_contains(s.edges@, node);
            let i = choose|i: int|
                0 <= i < s.edges@.len() && (#[trigger] s.edges@[i]).child == node;
            assert(s.is_live(s.edges@[i].child));
            lemma_rec_of_exists(s.objs@, node);
            let w = choose|w: int| 0 <= w < s.objs@.len() && (#[trigger] s.objs@[w]).id == node;
            assert(ids[w] == node);
        } else {
            assert(chain[0] == x && chain.last() == root && x != root);
            assert(k >= 1);
            let prev = chain[k - 1];
            lemma_parent_map_contains(s.edges@, prev);
            let i = choose|i: int|
                0 <= i < s.edges@.len() && (#[trigger] s.edges@[i]).child == prev;
            lemma_parent_map_value(s.edges@, i);
            assert(s.edges@[i].parent == node);
            assert(s.is_live(s.edges@[i].parent));
            lemma_rec_of_exists(s.objs@, node);
            let w = choose|w: int| 0 <= w < s.objs@.len() && (#[trigger] s.objs@[w]).id == node;
            assert(ids[w] == node);
        }
    }
    chain.unique_seq_to_set();
    ids.lemma_cardinality_of_set();
    assert forall|a: u64| chain.to_set().contains(a) implies ids.to_set().contains(a) by {
        assert(chain.contains(a));
        let k = choose|k: int| 0 <= k < chain.len() && chain[k] == a;
        assert(ids.contains(chain[k]));
    }
    vstd::set_lib::lemma_len_subset(chain.to_set(), ids.to_set());
    assert(chain.len() <= s.objs@.len());
    crate::graph::lemma_chain_reach(m, chain, 0, chain.len() - 1);
    crate::graph::lemma_descendants_cover(
        s.edges@,
        root,
        x,
        (chain.len() - 1) as nat,
        s.objs@.len() as nat,
    );
}

/// No orphan edges: after a destroy, the destroyed identity appears in no
/// child list, no object's parent lookup yields it, and it has no parent of
/// its own.
pub proof fn lemma_destroy_leaves_no_orphans(pre: Store, post: Store, id: u64, other: u64)
    requires
        pre.wf(),
        post.edges@ == edges_without(pre.edges@, id),
    ensures
        !children_seq(post.edges@, other).contains(id),
        post.pmap().contains_key(other) ==> post.pmap()[other] != id,
        !post.pmap().contains_key(id),
{
    lemma_edges_without_props(pre.edges@, id);
    lemma_children_seq_members(post.edges@, other);
    if children_seq(post.edges@, other).contains(id) {
        let i = choose|i: int|
            0 <= i < post.edges@.len() && (#[trigger] post.edges@[i]).child == id
                && post.edges@[i].parent == other;
        assert(post.edges@[i].child != id);
    }
    lemma_parent_map_contains(post.edges@, id);
    if post.pmap().contains_key(id) {
        let i = choose|i: int|
            0 <= i < post.edges@.len() && (#[trigger] post.edges@[i].child) == id;
        assert(post.edges@[i].child != id);
    }
    if post.pmap().contains_key(other) {
        lemma_parent_map_contains(post.edges@, other);
        let i = choose|i: int|
            0 <= i < post.edges@.len() && (#[trigger] post.edges@[i].child) == other;
        lemma_parent_map_value(post.edges@, i);
        assert(post.edges@[i].parent != id);
    }
}

/// The transient slot of the object `id`, if any object of that identity is
/// live in the record list.
pub fn lookup_derived(objs: &Vec<ObjRecord>, id: u64) -> (r: Option<ComponentValue>)
    ensures
        r == (match rec_of(objs@, id) {
            Some(c) => c.derived,
            None => None::<ComponentValue>,
        }),
{
    match find_index(objs, id) {
        Some(i) => objs[i].derived,
        None => None,
    }
}

/// `rec` with its slot for `kind` replaced, as executable code.
fn set_slot(rec: ObjRecord, kind: ComponentKind, v: Option<ComponentValue>) -> (r: ObjRecord)
    ensures
        r == with_comp(rec, kind, v),
{
    match kind {
        ComponentKind::Transform => ObjRecord {
            id: rec.id,
            transform: v,
            tag: rec.tag,
            derived: rec.derived,
        },
        ComponentKind::Tag => ObjRecord {
            id: rec.id,
            transform: rec.transform,
            tag: v,
            derived: rec.derived,
        },
        ComponentKind::Derived => ObjRecord {
            id: rec.id,
            transform: rec.transform,
            tag: rec.tag,
            derived: v,
        },
    }
}

} // verus!
