//! The value arena: owns every node, shares them by handle, and reclaims
//! them by reference counting.
//!
//! Each node holds a tagged-union payload and a reference count.  The ghost
//! `model` sequence carries, for every node, the finite tree (`Val`) that the
//! node denotes; well-formedness ties each node's payload to its model entry.
//! Containers hold handles, not copies, so a node's model entry stays valid
//! only while no one mutates it: the mutation operations therefore require
//! that their target is not referenced by any container (a freshly allocated,
//! not-yet-shared node).

use vstd::prelude::*;
use vstd::pervasive::unreached;
use crate::model::{Val, spec_entry, arity_of, arr_elems, arr_flag, obj_entries, obj_has_key,
    is_function_val, lemma_spec_entry_skip, spec_boolean};

verus! {

broadcast use vstd::seq::axiom_seq_index_decreases;

/// Flags carried by an array node.  `sequence` marks an array as the
/// flattened result of a path expression rather than a literal array.
#[derive(Clone, Copy, PartialEq, Eq, Structural, Debug)]
pub struct ArrayFlags {
    pub sequence: bool,
}

/// A handle: an index identifying one node owned by the arena.
#[derive(Clone, Copy, PartialEq, Eq, Structural, Debug)]
pub struct Value {
    pub index: usize,
}

enum ValueKind {
    Undefined,
    Null,
    Bool(bool),
    Number(i128),
    Str(String),
    Object(Vec<(String, usize)>),
    Array(Vec<usize>, ArrayFlags),
    Lambda(usize, usize),
    NativeFn(usize, usize),
}

struct Node {
    kind: ValueKind,
    rc: u64,
}

/// Handles held by a node's payload, as arena indices.
spec fn kind_children(k: ValueKind) -> Seq<int> {
    match k {
        ValueKind::Array(items, _) => items@.map_values(|u: usize| u as int),
        ValueKind::Object(entries) => entries@.map_values(|e: (String, usize)| e.1 as int),
        _ => Seq::empty(),
    }
}

/// One node's payload agrees with its model entry `v`, resolving child
/// handles through the whole model sequence `vs`.
spec fn node_matches(k: ValueKind, v: Val, vs: Seq<Val>) -> bool {
    match k {
        ValueKind::Undefined => v == Val::Undefined,
        ValueKind::Null => v == Val::Null,
        ValueKind::Bool(b) => v == Val::Bool(b),
        ValueKind::Number(n) => v == Val::Num(n as int),
        ValueKind::Str(s) => v == Val::Str(s@),
        ValueKind::Array(items, flags) => match v {
            Val::Arr(elems, fl) => {
                &&& fl == flags.sequence
                &&& elems.len() == items@.len()
                &&& forall|i: int|
                    0 <= i < items@.len() ==> (#[trigger] items@[i]) < vs.len() && elems[i]
                        == vs[items@[i] as int]
            },
            _ => false,
        },
        ValueKind::Object(entries) => match v {
            Val::Obj(es) => {
                &&& es.len() == entries@.len()
                &&& forall|i: int|
                    0 <= i < entries@.len() ==> (#[trigger] entries@[i]).1 < vs.len() && es[i].0
                        == entries@[i].0@ && es[i].1 == vs[entries@[i].1 as int]
            },
            _ => false,
        },
        ValueKind::Lambda(p, b) => v == Val::Lambda(p as nat, b as nat),
        ValueKind::NativeFn(a, id) => v == Val::Native(a as nat, id as nat),
    }
}

/// The arena.  Nodes 0 to 3 are the pool-owned constants `Undefined`,
/// `Null`, `false` and `true`.
pub struct ValuePool {
    nodes: Vec<Node>,
    model: Ghost<Seq<Val>>,
}

impl ValuePool {
    /// The tree denoted by each node.
    pub closed spec fn vals(self) -> Seq<Val> {
        self.model@
    }

    /// Every node's payload agrees with its model entry, and the four
    /// constants sit at their fixed places.
    pub closed spec fn wf(self) -> bool {
        &&& self.model@.len() == self.nodes@.len()
        &&& self.nodes@.len() >= 4
        &&& self.model@[0] == Val::Undefined
        &&& self.model@[1] == Val::Null
        &&& self.model@[2] == Val::Bool(false)
        &&& self.model@[3] == Val::Bool(true)
        &&& forall|j: int|
            0 <= j < self.nodes@.len() ==> node_matches(
                (#[trigger] self.nodes@[j]).kind,
                self.model@[j],
                self.model@,
            )
    }

    /// No container in the arena holds handle `h`: `h` is unshared, so it
    /// may still be mutated by its owner.
    pub closed spec fn unreferenced(self, h: int) -> bool {
        forall|j: int|
            0 <= j < self.nodes@.len() ==> !kind_children(
                (#[trigger] self.nodes@[j]).kind,
            ).contains(h)
    }

    /// The arena grew from `prev` without changing what any existing node
    /// denotes.
    pub open spec fn extends(self, prev: ValuePool) -> bool {
        &&& self.vals().len() >= prev.vals().len()
        &&& forall|j: int| 0 <= j < prev.vals().len() ==> self.vals()[j] == #[trigger] prev.vals()[j]
    }

    /// Growing is transitive.
    pub proof fn lemma_extends_trans(a: ValuePool, b: ValuePool, c: ValuePool)
        requires
            c.extends(b),
            b.extends(a),
        ensures
            c.extends(a),
    {
        assert forall|j: int| 0 <= j < a.vals().len() implies c.vals()[j] == #[trigger] a.vals()[j]
        by {
            assert(b.vals()[j] == a.vals()[j]);
            assert(c.vals()[j] == b.vals()[j]);
        }
    }

    spec fn live_below(self, n: int) -> int
        decreases n,
    {
        if n <= 0 {
            0
        } else {
            self.live_below(n - 1) + if self.nodes@[n - 1].rc > 0 {
                1int
            } else {
                0int
            }
        }
    }

    /// Number of nodes whose storage is still claimed (reference count
    /// above zero).
    pub closed spec fn live(self) -> int {
        self.live_below(self.nodes@.len() as int)
    }

    /// Reference count of node `j`: how many handles (containers and
    /// callers) still claim it.
    pub closed spec fn rc_of(self, j: int) -> u64 {
        self.nodes@[j].rc
    }

    /// A node live in `b` was live in `a`: `b` claims no more storage.
    proof fn lemma_live_pos_mono(a: ValuePool, b: ValuePool, n: int)
        requires
            n <= a.nodes@.len(),
            n <= b.nodes@.len(),
            forall|j: int|
                0 <= j < n ==> ((#[trigger] b.nodes@[j]).rc > 0 ==> a.nodes@[j].rc > 0),
        ensures
            b.live_below(n) <= a.live_below(n),
        decreases n,
    {
        if n > 0 {
            Self::lemma_live_pos_mono(a, b, n - 1);
        }
    }

    /// Pointwise equal liveness gives an equal live count.
    proof fn lemma_live_pos_agree(a: ValuePool, b: ValuePool, n: int)
        requires
            n <= a.nodes@.len(),
            n <= b.nodes@.len(),
            forall|j: int|
                0 <= j < n ==> ((#[trigger] b.nodes@[j]).rc > 0) == (a.nodes@[j].rc > 0),
        ensures
            b.live_below(n) == a.live_below(n),
        decreases n,
    {
        if n > 0 {
            Self::lemma_live_pos_agree(a, b, n - 1);
        }
    }

    /// As the monotone lemma, but one node live in `a` is dead in `b`: the
    /// live count drops by at least one.
    proof fn lemma_live_strict(a: ValuePool, b: ValuePool, n: int, v: int)
        requires
            n <= a.nodes@.len(),
            n <= b.nodes@.len(),
            forall|j: int|
                0 <= j < n ==> ((#[trigger] b.nodes@[j]).rc > 0 ==> a.nodes@[j].rc > 0),
            0 <= v < n,
            a.nodes@[v].rc > 0,
            b.nodes@[v].rc == 0,
        ensures
            b.live_below(n) <= a.live_below(n) - 1,
        decreases n,
    {
        if n - 1 == v {
            Self::lemma_live_pos_mono(a, b, n - 1);
        } else {
            Self::lemma_live_strict(a, b, n - 1, v);
        }
    }

    proof fn lemma_children_in_bounds(self, j: int, h: int)
        requires
            self.wf(),
            0 <= j < self.vals().len(),
            kind_children(self.nodes@[j].kind).contains(h),
        ensures
            0 <= h < self.vals().len(),
    {
        let k = self.nodes@[j].kind;
        assert(node_matches(k, self.model@[j], self.model@));
        match k {
            ValueKind::Array(items, _) => {
                let i = choose|i: int|
                    0 <= i < kind_children(k).len() && kind_children(k)[i] == h;
                assert(items@[i] < self.model@.len());
            },
            ValueKind::Object(entries) => {
                let i = choose|i: int|
                    0 <= i < kind_children(k).len() && kind_children(k)[i] == h;
                assert(entries@[i].1 < self.model@.len());
            },
            _ => {},
        }
    }

    /// A handle at or past the end of the arena is referenced by nothing.
    proof fn lemma_fresh_unreferenced(self, h: int)
        requires
            self.wf(),
            h >= self.vals().len(),
        ensures
            self.unreferenced(h),
    {
        assert forall|j: int| 0 <= j < self.nodes@.len() implies !kind_children(
            (#[trigger] self.nodes@[j]).kind,
        ).contains(h) by {
            if kind_children(self.nodes@[j].kind).contains(h) {
                self.lemma_children_in_bounds(j, h);
            }
        }
    }

    /// Growing the model sequence preserves every existing node's match.
    proof fn lemma_matches_grow(k: ValueKind, v: Val, vs: Seq<Val>, vs2: Seq<Val>)
        requires
            node_matches(k, v, vs),
            vs2.len() >= vs.len(),
            forall|j: int| 0 <= j < vs.len() ==> vs2[j] == #[trigger] vs[j],
        ensures
            node_matches(k, v, vs2),
    {
    }

    proof fn lemma_live_except(a: ValuePool, b: ValuePool, n: int, v: int)
        requires
            n <= a.nodes@.len(),
            n <= b.nodes@.len(),
            0 <= v,
            forall|j: int|
                0 <= j < n && j != v ==> ((#[trigger] b.nodes@[j]).rc > 0) == (a.nodes@[j].rc > 0),
        ensures
            v < n ==> b.live_below(n) == a.live_below(n) + (if b.nodes@[v].rc > 0 {
                1int
            } else {
                0int
            }) - (if a.nodes@[v].rc > 0 {
                1int
            } else {
                0int
            }),
            v >= n ==> b.live_below(n) == a.live_below(n),
        decreases n,
    {
        if n > 0 {
            Self::lemma_live_except(a, b, n - 1, v);
        }
    }

    /// Two well-formed arenas of the same size whose nodes are pointwise
    /// equally live, except possibly at `v`, have live counts that differ by
    /// exactly the change at `v`.
    pub proof fn lemma_live_change_at(a: ValuePool, b: ValuePool, v: int)
        requires
            a.wf(),
            b.wf(),
            a.vals().len() == b.vals().len(),
            0 <= v < a.vals().len(),
            forall|j: int|
                0 <= j < a.vals().len() && j != v ==> ((#[trigger] b.rc_of(j) > 0) == (a.rc_of(j)
                    > 0)),
        ensures
            b.live() == a.live() + (if b.rc_of(v) > 0 {
                1int
            } else {
                0int
            }) - (if a.rc_of(v) > 0 {
                1int
            } else {
                0int
            }),
    {
        assert forall|j: int|
            0 <= j < a.nodes@.len() && j != v implies ((#[trigger] b.nodes@[j]).rc > 0) == (
        a.nodes@[j].rc > 0) by {
            assert(b.rc_of(j) == b.nodes@[j].rc);
        }
        Self::lemma_live_except(a, b, a.nodes@.len() as int, v);
    }

    /// A value that is not a container holds no handles.
    pub proof fn lemma_scalar_no_refs(self, j: int)
        requires
            self.wf(),
            0 <= j < self.vals().len(),
            !(self.vals()[j] is Arr),
            !(self.vals()[j] is Obj),
        ensures
            self.refs_of(j).len() == 0,
    {
        self.lemma_node_shape(j);
        match self.nodes@[j].kind {
            ValueKind::Array(_, _) => {
                assert(false);
            },
            ValueKind::Object(_) => {
                assert(false);
            },
            _ => {},
        }
    }

    /// A fresh arena holding only the four constants, each owned by the
    /// pool itself.
    pub fn new() -> (pool: ValuePool)
        ensures
            pool.wf(),
            pool.vals() == seq![Val::Undefined, Val::Null, Val::Bool(false), Val::Bool(true)],
            pool.live() == 4,
            forall|h: int| pool.unreferenced(h),
    {
        let mut nodes: Vec<Node> = Vec::new();
        nodes.push(Node { kind: ValueKind::Undefined, rc: 1 });
        nodes.push(Node { kind: ValueKind::Null, rc: 1 });
        nodes.push(Node { kind: ValueKind::Bool(false), rc: 1 });
        nodes.push(Node { kind: ValueKind::Bool(true), rc: 1 });
        let ghost vmodel: Seq<Val> = seq![Val::Undefined, Val::Null, Val::Bool(false), Val::Bool(true)];
        let pool = ValuePool { nodes, model: Ghost(vmodel) };
        proof {
            assert forall|h: int| pool.unreferenced(h) by {
                assert(forall|j: int|
                    0 <= j < pool.nodes@.len() ==> kind_children((#[trigger] pool.nodes@[j]).kind)
                        =~= Seq::<int>::empty());
            }
            assert(pool.live_below(0) == 0);
            assert(pool.live_below(1) == 1);
            assert(pool.live_below(2) == 2);
            assert(pool.live_below(3) == 3);
            assert(pool.live_below(4) == 4);
        }
        pool
    }

    fn bump_rc(&mut self, i: usize)
        requires
            i < old(self).nodes@.len(),
        ensures
            final(self).nodes@.len() == old(self).nodes@.len(),
            forall|j: int|
                0 <= j < old(self).nodes@.len() ==> (#[trigger] final(self).nodes@[j]).kind == old(
                    self,
                ).nodes@[j].kind,
            final(self).model@ == old(self).model@,
            forall|j: int|
                0 <= j < old(self).nodes@.len() && j != i ==> (#[trigger] final(self).nodes@[j]).rc
                    == old(self).nodes@[j].rc,
            old(self).nodes@[i as int].rc < u64::MAX ==> final(self).nodes@[i as int].rc == old(
                self,
            ).nodes@[i as int].rc + 1,
            old(self).nodes@[i as int].rc == u64::MAX ==> final(self).nodes@[i as int].rc
                == u64::MAX,
    {
        let r = self.nodes[i].rc;
        self.nodes[i].rc = if r < u64::MAX {
            r + 1
        } else {
            r
        };
    }

    fn drop_rc(&mut self, i: usize) -> (dead: bool)
        requires
            i < old(self).nodes@.len(),
        ensures
            final(self).nodes@.len() == old(self).nodes@.len(),
            forall|j: int|
                0 <= j < old(self).nodes@.len() ==> (#[trigger] final(self).nodes@[j]).kind == old(
                    self,
                ).nodes@[j].kind,
            final(self).model@ == old(self).model@,
            dead == (old(self).nodes@[i as int].rc == 1),
            forall|j: int|
                0 <= j < old(self).nodes@.len() && j != i ==> (#[trigger] final(self).nodes@[j]).rc
                    == old(self).nodes@[j].rc,
            old(self).nodes@[i as int].rc > 0 ==> final(self).nodes@[i as int].rc == old(
                self,
            ).nodes@[i as int].rc - 1,
            old(self).nodes@[i as int].rc == 0 ==> final(self).nodes@[i as int].rc == 0,
    {
        let r = self.nodes[i].rc;
        if r > 0 {
            self.nodes[i].rc = r - 1;
            r == 1
        } else {
            false
        }
    }

    /// Two pools with the same payloads and model denote the same values and
    /// share the same reference structure (only counts may differ).
    proof fn lemma_same_structure(a: ValuePool, b: ValuePool)
        requires
            a.wf(),
            b.model@ == a.model@,
            b.nodes@.len() == a.nodes@.len(),
            forall|j: int|
                0 <= j < a.nodes@.len() ==> (#[trigger] b.nodes@[j]).kind == a.nodes@[j].kind,
        ensures
            b.wf(),
            forall|h: int| b.unreferenced(h) == a.unreferenced(h),
    {
        assert forall|h: int| b.unreferenced(h) == a.unreferenced(h) by {
            if a.unreferenced(h) {
                assert forall|j: int| 0 <= j < b.nodes@.len() implies !kind_children(
                    (#[trigger] b.nodes@[j]).kind,
                ).contains(h) by {
                    assert(b.nodes@[j].kind == a.nodes@[j].kind);
                    assert(!kind_children(a.nodes@[j].kind).contains(h));
                }
            }
            if b.unreferenced(h) {
                assert forall|j: int| 0 <= j < a.nodes@.len() implies !kind_children(
                    (#[trigger] a.nodes@[j]).kind,
                ).contains(h) by {
                    assert(b.nodes@[j].kind == a.nodes@[j].kind);
                    assert(!kind_children(b.nodes@[j].kind).contains(h));
                }
            }
        }
    }

    /// Allocate one node with reference count 1.  The payload's children must
    /// already be consistent with the current model, and must all be handles
    /// that some container already holds (or none at all), so that no
    /// unshared node becomes shared by the allocation.
    fn alloc_node(&mut self, kind: ValueKind, v: Ghost<Val>) -> (r: Value)
        requires
            old(self).wf(),
            node_matches(kind, v@, old(self).model@),
            forall|h: int| old(self).unreferenced(h) ==> !kind_children(kind).contains(h),
        ensures
            final(self).wf(),
            final(self).vals() == old(self).vals().push(v@),
            r.index == old(self).vals().len(),
            final(self).unreferenced(r.index as int),
            forall|h: int| old(self).unreferenced(h) ==> final(self).unreferenced(h),
            forall|h: int| !old(self).unreferenced(h) ==> !final(self).unreferenced(h),
            final(self).live() == old(self).live() + 1,
            forall|j: int|
                0 <= j < old(self).vals().len() ==> final(self).refs_of(j) == #[trigger] old(
                    self,
                ).refs_of(j),
            final(self).refs_of(r.index as int) == kind_children(kind),
    {
        let r = self.nodes.len();
        let ghost oldp = *self;
        let ghost gkind = kind;
        self.nodes.push(Node { kind, rc: 1 });
        self.model = Ghost(self.model@.push(v@));
        proof {
            assert forall|j: int|
                0 <= j < self.nodes@.len() implies node_matches(
                (#[trigger] self.nodes@[j]).kind,
                self.model@[j],
                self.model@,
            ) by {
                if j < oldp.nodes@.len() {
                    Self::lemma_matches_grow(
                        oldp.nodes@[j].kind,
                        oldp.model@[j],
                        oldp.model@,
                        self.model@,
                    );
                } else {
                    Self::lemma_matches_grow(gkind, v@, oldp.model@, self.model@);
                }
            }
            assert(self.wf());
            assert forall|h: int|
                oldp.unreferenced(h) && !kind_children(gkind).contains(h) implies self.unreferenced(
                h,
            ) by {
                assert forall|j: int|
                    0 <= j < self.nodes@.len() implies !kind_children(
                    (#[trigger] self.nodes@[j]).kind,
                ).contains(h) by {
                    if j < oldp.nodes@.len() {
                        assert(self.nodes@[j] == oldp.nodes@[j]);
                    }
                }
            }
            assert forall|h: int| !oldp.unreferenced(h) implies !self.unreferenced(h) by {
                let j = choose|j: int|
                    0 <= j < oldp.nodes@.len() && kind_children(
                        (#[trigger] oldp.nodes@[j]).kind,
                    ).contains(h);
                assert(self.nodes@[j] == oldp.nodes@[j]);
                assert(kind_children(self.nodes@[j].kind).contains(h));
            }
            oldp.lemma_fresh_unreferenced(r as int);
            assert(self.unreferenced(r as int)) by {
                assert forall|j: int|
                    0 <= j < self.nodes@.len() implies !kind_children(
                    (#[trigger] self.nodes@[j]).kind,
                ).contains(r as int) by {
                    if j < oldp.nodes@.len() {
                        assert(self.nodes@[j] == oldp.nodes@[j]);
                    } else {
                        if kind_children(gkind).contains(r as int) {
                            let i = choose|i: int|
                                0 <= i < kind_children(gkind).len() && kind_children(gkind)[i] == r
                                    as int;
                            assert(node_matches(gkind, v@, oldp.model@));
                        }
                    }
                }
            }
            assert(self.live() == oldp.live() + 1) by {
                Self::lemma_live_extend(oldp, *self);
            }
        }
        Value { index: r }
    }

    /// Appending one live node adds one to the live count.
    proof fn lemma_live_extend(a: ValuePool, b: ValuePool)
        requires
            b.nodes@.len() == a.nodes@.len() + 1,
            forall|j: int| 0 <= j < a.nodes@.len() ==> b.nodes@[j] == #[trigger] a.nodes@[j],
            b.nodes@[a.nodes@.len() as int].rc > 0,
        ensures
            b.live() == a.live() + 1,
    {
        Self::lemma_live_below_agree(a, b, a.nodes@.len() as int);
    }

    proof fn lemma_live_below_agree(a: ValuePool, b: ValuePool, n: int)
        requires
            n <= a.nodes@.len(),
            b.nodes@.len() >= n,
            forall|j: int| 0 <= j < n ==> (#[trigger] b.nodes@[j]).rc == a.nodes@[j].rc,
        ensures
            b.live_below(n) == a.live_below(n),
        decreases n,
    {
        if n > 0 {
            Self::lemma_live_below_agree(a, b, n - 1);
        }
    }

    /// Handle to the shared `Undefined` constant, retained for the caller.
    pub fn undefined(&mut self) -> (v: Value)
        requires
            old(self).wf(),
        ensures
            final(self).wf(),
            final(self).vals() == old(self).vals(),
            forall|h: int| final(self).unreferenced(h) == old(self).unreferenced(h),
            v.index < final(self).vals().len(),
            final(self).vals()[v.index as int] == Val::Undefined,
            final(self).live() == old(self).live() + (if old(self).rc_of(v.index as int) > 0 {
                0int
            } else {
                1int
            }),
            forall|j: int|
                0 <= j < old(self).vals().len() && j != v.index ==> final(self).rc_of(j) == old(
                    self,
                ).rc_of(j),
            old(self).rc_of(v.index as int) < u64::MAX ==> final(self).rc_of(v.index as int)
                == old(self).rc_of(v.index as int) + 1,
            old(self).rc_of(v.index as int) == u64::MAX ==> final(self).rc_of(v.index as int)
                == u64::MAX,
    {
        self.constant(0)
    }

    /// Handle to the shared `Null` constant, retained for the caller.
    pub fn null(&mut self) -> (v: Value)
        requires
            old(self).wf(),
        ensures
            final(self).wf(),
            final(self).vals() == old(self).vals(),
            forall|h: int| final(self).unreferenced(h) == old(self).unreferenced(h),
            v.index < final(self).vals().len(),
            final(self).vals()[v.index as int] == Val::Null,
            final(self).live() == old(self).live() + (if old(self).rc_of(v.index as int) > 0 {
                0int
            } else {
                1int
            }),
            forall|j: int|
                0 <= j < old(self).vals().len() && j != v.index ==> final(self).rc_of(j) == old(
                    self,
                ).rc_of(j),
            old(self).rc_of(v.index as int) < u64::MAX ==> final(self).rc_of(v.index as int)
                == old(self).rc_of(v.index as int) + 1,
            old(self).rc_of(v.index as int) == u64::MAX ==> final(self).rc_of(v.index as int)
                == u64::MAX,
    {
        self.constant(1)
    }

    /// Handle to one of the shared boolean constants, retained for the
    /// caller.
    pub fn bool_value(&mut self, b: bool) -> (v: Value)
        requires
            old(self).wf(),
        ensures
            final(self).wf(),
            final(self).vals() == old(self).vals(),
            forall|h: int| final(self).unreferenced(h) == old(self).unreferenced(h),
            v.index < final(self).vals().len(),
            final(self).vals()[v.index as int] == Val::Bool(b),
            final(self).live() == old(self).live() + (if old(self).rc_of(v.index as int) > 0 {
                0int
            } else {
                1int
            }),
            forall|j: int|
                0 <= j < old(self).vals().len() && j != v.index ==> final(self).rc_of(j) == old(
                    self,
                ).rc_of(j),
            old(self).rc_of(v.index as int) < u64::MAX ==> final(self).rc_of(v.index as int)
                == old(self).rc_of(v.index as int) + 1,
            old(self).rc_of(v.index as int) == u64::MAX ==> final(self).rc_of(v.index as int)
                == u64::MAX,
    {
        self.constant(if b { 3 } else { 2 })
    }

    fn constant(&mut self, i: usize) -> (v: Value)
        requires
            old(self).wf(),
            i < 4,
        ensures
            final(self).wf(),
            final(self).vals() == old(self).vals(),
            forall|h: int| final(self).unreferenced(h) == old(self).unreferenced(h),
            v.index == i,
            forall|j: int|
                0 <= j < old(self).vals().len() && j != v.index ==> final(self).rc_of(j) == old(
                    self,
                ).rc_of(j),
            old(self).rc_of(v.index as int) < u64::MAX ==> final(self).rc_of(v.index as int)
                == old(self).rc_of(v.index as int) + 1,
            old(self).rc_of(v.index as int) == u64::MAX ==> final(self).rc_of(v.index as int)
                == u64::MAX,
            final(self).live() == old(self).live() + (if old(self).rc_of(i as int) > 0 {
                0int
            } else {
                1int
            }),
    {
        let ghost oldp = *self;
        self.bump_rc(i);
        proof {
            Self::lemma_same_structure(oldp, *self);
            Self::lemma_live_change_at(oldp, *self, i as int);
        }
        Value { index: i }
    }

    /// Handles a node's payload holds, exposed abstractly so that contracts
    /// can say the reference structure did not change.
    pub closed spec fn refs_of(self, j: int) -> Seq<int> {
        kind_children(self.nodes@[j].kind)
    }

    proof fn lemma_same_refs(a: ValuePool, b: ValuePool)
        requires
            b.nodes@.len() == a.nodes@.len(),
            forall|j: int|
                0 <= j < a.nodes@.len() ==> (#[trigger] b.nodes@[j]).kind == a.nodes@[j].kind,
        ensures
            forall|j: int| 0 <= j < a.nodes@.len() ==> b.refs_of(j) == #[trigger] a.refs_of(j),
    {
    }

    /// A fresh number node.
    pub fn number(&mut self, n: i128) -> (r: Value)
        requires
            old(self).wf(),
        ensures
            final(self).wf(),
            final(self).vals() == old(self).vals().push(Val::Num(n as int)),
            final(self).live() == old(self).live() + 1,
            r.index == old(self).vals().len(),
            final(self).unreferenced(r.index as int),
            forall|h: int| old(self).unreferenced(h) ==> final(self).unreferenced(h),
            forall|h: int| !old(self).unreferenced(h) ==> !final(self).unreferenced(h),
    {
        self.alloc_node(ValueKind::Number(n), Ghost(Val::Num(n as int)))
    }

    /// A fresh string node holding a copy of `s`.
    pub fn string(&mut self, s: &str) -> (r: Value)
        requires
            old(self).wf(),
        ensures
            final(self).wf(),
            final(self).vals() == old(self).vals().push(Val::Str(s@)),
            final(self).live() == old(self).live() + 1,
            r.index == old(self).vals().len(),
            final(self).unreferenced(r.index as int),
            forall|h: int| old(self).unreferenced(h) ==> final(self).unreferenced(h),
            forall|h: int| !old(self).unreferenced(h) ==> !final(self).unreferenced(h),
    {
        self.alloc_node(ValueKind::Str(s.to_owned()), Ghost(Val::Str(s@)))
    }

    /// A fresh lambda node: `params` declared parameters, `body` an opaque
    /// id the evaluator resolves to the parsed body and captured frame.
    pub fn lambda(&mut self, params: usize, body: usize) -> (r: Value)
        requires
            old(self).wf(),
        ensures
            final(self).wf(),
            final(self).vals() == old(self).vals().push(Val::Lambda(params as nat, body as nat)),
            final(self).live() == old(self).live() + 1,
            r.index == old(self).vals().len(),
            final(self).unreferenced(r.index as int),
            forall|h: int| old(self).unreferenced(h) ==> final(self).unreferenced(h),
            forall|h: int| !old(self).unreferenced(h) ==> !final(self).unreferenced(h),
    {
        self.alloc_node(
            ValueKind::Lambda(params, body),
            Ghost(Val::Lambda(params as nat, body as nat)),
        )
    }

    /// A fresh native-function node of the given arity (0 to 3) and opaque
    /// dispatch id.
    pub fn native_fn(&mut self, arity: usize, id: usize) -> (r: Value)
        requires
            old(self).wf(),
            arity <= 3,
        ensures
            final(self).wf(),
            final(self).vals() == old(self).vals().push(Val::Native(arity as nat, id as nat)),
            final(self).live() == old(self).live() + 1,
            r.index == old(self).vals().len(),
            final(self).unreferenced(r.index as int),
            forall|h: int| old(self).unreferenced(h) ==> final(self).unreferenced(h),
            forall|h: int| !old(self).unreferenced(h) ==> !final(self).unreferenced(h),
    {
        self.alloc_node(ValueKind::NativeFn(arity, id), Ghost(Val::Native(arity as nat, id as nat)))
    }

    /// A fresh empty array node with the given flags.
    pub fn array_with_flags(&mut self, flags: ArrayFlags) -> (r: Value)
        requires
            old(self).wf(),
        ensures
            final(self).wf(),
            final(self).vals() == old(self).vals().push(Val::Arr(Seq::empty(), flags.sequence)),
            final(self).live() == old(self).live() + 1,
            r.index == old(self).vals().len(),
            final(self).refs_of(r.index as int) == Seq::<int>::empty(),
            forall|j: int|
                0 <= j < old(self).vals().len() ==> final(self).refs_of(j) == #[trigger] old(
                    self,
                ).refs_of(j),
            final(self).unreferenced(r.index as int),
            forall|h: int| old(self).unreferenced(h) ==> final(self).unreferenced(h),
            forall|h: int| !old(self).unreferenced(h) ==> !final(self).unreferenced(h),
    {
        self.alloc_node(
            ValueKind::Array(Vec::new(), flags),
            Ghost(Val::Arr(Seq::empty(), flags.sequence)),
        )
    }

    /// A fresh empty object node.
    pub fn object(&mut self) -> (r: Value)
        requires
            old(self).wf(),
        ensures
            final(self).wf(),
            final(self).vals() == old(self).vals().push(Val::Obj(Seq::empty())),
            final(self).live() == old(self).live() + 1,
            r.index == old(self).vals().len(),
            final(self).refs_of(r.index as int) == Seq::<int>::empty(),
            forall|j: int|
                0 <= j < old(self).vals().len() ==> final(self).refs_of(j) == #[trigger] old(
                    self,
                ).refs_of(j),
            final(self).unreferenced(r.index as int),
            forall|h: int| old(self).unreferenced(h) ==> final(self).unreferenced(h),
            forall|h: int| !old(self).unreferenced(h) ==> !final(self).unreferenced(h),
    {
        self.alloc_node(ValueKind::Object(Vec::new()), Ghost(Val::Obj(Seq::empty())))
    }

    /// Claim one more reference to the node: its storage now outlives one
    /// more release.
    pub fn retain(&mut self, v: Value)
        requires
            old(self).wf(),
            v.index < old(self).vals().len(),
        ensures
            final(self).wf(),
            final(self).vals() == old(self).vals(),
            forall|h: int| final(self).unreferenced(h) == old(self).unreferenced(h),
            forall|j: int|
                0 <= j < old(self).vals().len() ==> final(self).refs_of(j) == #[trigger] old(
                    self,
                ).refs_of(j),
            forall|j: int|
                0 <= j < old(self).vals().len() && j != v.index ==> final(self).rc_of(j) == old(
                    self,
                ).rc_of(j),
            old(self).rc_of(v.index as int) < u64::MAX ==> final(self).rc_of(v.index as int)
                == old(self).rc_of(v.index as int) + 1,
            old(self).rc_of(v.index as int) == u64::MAX ==> final(self).rc_of(v.index as int)
                == u64::MAX,
            final(self).live() == old(self).live() + (if old(self).rc_of(v.index as int) > 0 {
                0int
            } else {
                1int
            }),
    {
        let ghost oldp = *self;
        self.bump_rc(v.index);
        proof {
            Self::lemma_same_structure(oldp, *self);
            Self::lemma_same_refs(oldp, *self);
            Self::lemma_live_change_at(oldp, *self, v.index as int);
        }
    }

    fn child_count(&self, v: Value) -> (n: usize)
        requires
            self.wf(),
            v.index < self.vals().len(),
        ensures
            n == self.refs_of(v.index as int).len(),
    {
        match &self.nodes[v.index].kind {
            ValueKind::Array(items, _) => items.len(),
            ValueKind::Object(entries) => entries.len(),
            _ => 0,
        }
    }

    fn child_at(&self, v: Value, i: usize) -> (c: usize)
        requires
            self.wf(),
            v.index < self.vals().len(),
            i < self.refs_of(v.index as int).len(),
        ensures
            c as int == self.refs_of(v.index as int)[i as int],
            c < self.vals().len(),
            decreases_to!(self.vals()[v.index as int] => self.vals()[c as int]),
    {
        proof {
            assert(node_matches(
                self.nodes@[v.index as int].kind,
                self.model@[v.index as int],
                self.model@,
            ));
        }
        match &self.nodes[v.index].kind {
            ValueKind::Array(items, _) => {
                let c = items[i];
                proof {
                    let elems = arr_elems(self.model@[v.index as int]);
                    assert(self.model@[c as int] == elems[i as int]);
                    assert(decreases_to!(elems => elems[i as int]));
                }
                c
            },
            ValueKind::Object(entries) => {
                let c = entries[i].1;
                proof {
                    let es = obj_entries(self.model@[v.index as int]);
                    assert(self.model@[c as int] == es[i as int].1);
                    assert(decreases_to!(es => es[i as int]));
                }
                c
            },
            _ => unreached(),
        }
    }

    /// Give up one reference to the node.  At count zero the node's storage
    /// is reclaimed and it recursively releases every handle its payload
    /// holds.  Total: releasing an already reclaimed node does nothing.
    pub fn release(&mut self, v: Value)
        requires
            old(self).wf(),
            v.index < old(self).vals().len(),
        ensures
            final(self).wf(),
            final(self).vals() == old(self).vals(),
            forall|h: int| final(self).unreferenced(h) == old(self).unreferenced(h),
            forall|j: int|
                0 <= j < old(self).vals().len() ==> final(self).refs_of(j) == #[trigger] old(
                    self,
                ).refs_of(j),
            forall|j: int|
                0 <= j < old(self).vals().len() ==> final(self).rc_of(j) <= #[trigger] old(
                    self,
                ).rc_of(j),
            old(self).rc_of(v.index as int) > 0 ==> final(self).rc_of(v.index as int) == old(
                self,
            ).rc_of(v.index as int) - 1,
            old(self).rc_of(v.index as int) == 0 ==> forall|j: int|
                0 <= j < old(self).vals().len() ==> final(self).rc_of(j) == #[trigger] old(
                    self,
                ).rc_of(j),
            old(self).rc_of(v.index as int) > 1 ==> forall|j: int|
                0 <= j < old(self).vals().len() && j != v.index ==> final(self).rc_of(j)
                    == #[trigger] old(self).rc_of(j),
            old(self).rc_of(v.index as int) == 1 && old(self).refs_of(v.index as int).len() == 0
                ==> forall|j: int|
                    0 <= j < old(self).vals().len() && j != v.index ==> final(self).rc_of(j)
                        == #[trigger] old(self).rc_of(j),
            final(self).live() <= old(self).live(),
            old(self).rc_of(v.index as int) == 1 ==> final(self).live() <= old(self).live() - 1,
        decreases old(self).vals()[v.index as int],
    {
        let ghost oldp = *self;
        let dead = self.drop_rc(v.index);
        proof {
            Self::lemma_same_structure(oldp, *self);
            Self::lemma_same_refs(oldp, *self);
        }
        if dead {
            let n = self.child_count(v);
            let mut i: usize = 0;
            while i < n
                invariant
                    i <= n,
                    self.wf(),
                    v.index < self.vals().len(),
                    self.vals() == oldp.vals(),
                    self.vals() == old(self).vals(),
                    n == self.refs_of(v.index as int).len(),
                    forall|h: int| self.unreferenced(h) == oldp.unreferenced(h),
                    forall|j: int|
                        0 <= j < oldp.vals().len() ==> self.refs_of(j) == #[trigger] oldp.refs_of(
                            j,
                        ),
                    self.nodes@.len() == oldp.nodes@.len(),
                    oldp.rc_of(v.index as int) == 1,
                    self.rc_of(v.index as int) == 0,
                    forall|j: int|
                        0 <= j < oldp.vals().len() ==> self.rc_of(j) <= #[trigger] oldp.rc_of(j),
                    n == 0 ==> forall|j: int|
                        0 <= j < oldp.vals().len() && j != v.index ==> self.rc_of(j)
                            == #[trigger] oldp.rc_of(j),
                decreases n - i,
            {
                let c = self.child_at(v, i);
                proof {
                    assert(decreases_to!(
                        old(self).vals()[v.index as int] => self.vals()[c as int]
                    ));
                }
                let ghost mid = *self;
                self.release(Value { index: c });
                proof {
                    assert forall|j: int|
                        0 <= j < oldp.vals().len() implies self.rc_of(j) <= #[trigger] oldp.rc_of(
                        j,
                    ) by {
                        assert(self.rc_of(j) <= mid.rc_of(j));
                    }
                    assert(self.rc_of(v.index as int) <= 0);
                }
                i += 1;
            }
            proof {
                assert forall|j: int|
                    0 <= j < oldp.nodes@.len() implies ((#[trigger] self.nodes@[j]).rc > 0
                    ==> oldp.nodes@[j].rc > 0) by {
                    assert(self.rc_of(j) <= oldp.rc_of(j));
                }
                Self::lemma_live_strict(
                    oldp,
                    *self,
                    oldp.nodes@.len() as int,
                    v.index as int,
                );
            }
        } else {
            proof {
                assert forall|j: int|
                    0 <= j < oldp.vals().len() implies ((#[trigger] self.nodes@[j]).rc > 0) == (
                    oldp.nodes@[j].rc > 0) by {}
                Self::lemma_live_pos_agree(oldp, *self, oldp.nodes@.len() as int);
            }
        }
    }

    proof fn lemma_node_shape(self, i: int)
        requires
            self.wf(),
            0 <= i < self.vals().len(),
        ensures
            node_matches(self.nodes@[i].kind, self.model@[i], self.model@),
    {
    }

    /// Whether the handle denotes the absence of a result.
    pub fn is_undefined(&self, v: Value) -> (r: bool)
        requires
            self.wf(),
            v.index < self.vals().len(),
        ensures
            r == (self.vals()[v.index as int] is Undefined),
    {
        proof {
            self.lemma_node_shape(v.index as int);
        }
        match &self.nodes[v.index].kind {
            ValueKind::Undefined => true,
            _ => false,
        }
    }

    /// Whether the handle denotes `Null`.
    pub fn is_null(&self, v: Value) -> (r: bool)
        requires
            self.wf(),
            v.index < self.vals().len(),
        ensures
            r == (self.vals()[v.index as int] is Null),
    {
        proof {
            self.lemma_node_shape(v.index as int);
        }
        match &self.nodes[v.index].kind {
            ValueKind::Null => true,
            _ => false,
        }
    }

    /// Whether the handle denotes an array.
    pub fn is_array(&self, v: Value) -> (r: bool)
        requires
            self.wf(),
            v.index < self.vals().len(),
        ensures
            r == (self.vals()[v.index as int] is Arr),
    {
        proof {
            self.lemma_node_shape(v.index as int);
        }
        match &self.nodes[v.index].kind {
            ValueKind::Array(_, _) => true,
            _ => false,
        }
    }

    /// Whether the handle denotes an object.
    pub fn is_object(&self, v: Value) -> (r: bool)
        requires
            self.wf(),
            v.index < self.vals().len(),
        ensures
            r == (self.vals()[v.index as int] is Obj),
    {
        proof {
            self.lemma_node_shape(v.index as int);
        }
        match &self.nodes[v.index].kind {
            ValueKind::Object(_) => true,
            _ => false,
        }
    }

    /// Whether the handle denotes a string.
    pub fn is_string(&self, v: Value) -> (r: bool)
        requires
            self.wf(),
            v.index < self.vals().len(),
        ensures
            r == (self.vals()[v.index as int] is Str),
    {
        proof {
            self.lemma_node_shape(v.index as int);
        }
        match &self.nodes[v.index].kind {
            ValueKind::Str(_) => true,
            _ => false,
        }
    }

    /// Whether the handle denotes a number.
    pub fn is_number(&self, v: Value) -> (r: bool)
        requires
            self.wf(),
            v.index < self.vals().len(),
        ensures
            r == (self.vals()[v.index as int] is Num),
    {
        proof {
            self.lemma_node_shape(v.index as int);
        }
        match &self.nodes[v.index].kind {
            ValueKind::Number(_) => true,
            _ => false,
        }
    }

    /// Whether the handle denotes a function-kind value (lambda or native).
    pub fn is_function(&self, v: Value) -> (r: bool)
        requires
            self.wf(),
            v.index < self.vals().len(),
        ensures
            r == is_function_val(self.vals()[v.index as int]),
    {
        proof {
            self.lemma_node_shape(v.index as int);
        }
        match &self.nodes[v.index].kind {
            ValueKind::Lambda(_, _) => true,
            ValueKind::NativeFn(_, _) => true,
            _ => false,
        }
    }

    /// Whether the handle denotes the boolean `true`.
    pub fn as_bool(&self, v: Value) -> (r: bool)
        requires
            self.wf(),
            v.index < self.vals().len(),
        ensures
            r == (self.vals()[v.index as int] == Val::Bool(true)),
    {
        proof {
            self.lemma_node_shape(v.index as int);
        }
        match &self.nodes[v.index].kind {
            ValueKind::Bool(b) => *b,
            _ => false,
        }
    }

    /// Declared arity of a function-kind value.
    pub fn arity(&self, v: Value) -> (r: usize)
        requires
            self.wf(),
            v.index < self.vals().len(),
            is_function_val(self.vals()[v.index as int]),
        ensures
            r as nat == arity_of(self.vals()[v.index as int]),
    {
        proof {
            self.lemma_node_shape(v.index as int);
        }
        match &self.nodes[v.index].kind {
            ValueKind::Lambda(params, _) => *params,
            ValueKind::NativeFn(arity, _) => *arity,
            _ => unreached(),
        }
    }

    /// Opaque id of a function-kind value: a lambda's body id or a native
    /// function's dispatch id.
    pub fn function_id(&self, v: Value) -> (r: usize)
        requires
            self.wf(),
            v.index < self.vals().len(),
            is_function_val(self.vals()[v.index as int]),
        ensures
            self.vals()[v.index as int] matches Val::Lambda(_, b) ==> b == r as nat,
            self.vals()[v.index as int] matches Val::Native(_, id) ==> id == r as nat,
    {
        proof {
            self.lemma_node_shape(v.index as int);
        }
        match &self.nodes[v.index].kind {
            ValueKind::Lambda(_, b) => *b,
            ValueKind::NativeFn(_, id) => *id,
            _ => unreached(),
        }
    }

    /// Member count of an array.
    pub fn array_len(&self, v: Value) -> (n: usize)
        requires
            self.wf(),
            v.index < self.vals().len(),
            self.vals()[v.index as int] is Arr,
        ensures
            n == arr_elems(self.vals()[v.index as int]).len(),
            n == self.refs_of(v.index as int).len(),
    {
        proof {
            self.lemma_node_shape(v.index as int);
        }
        match &self.nodes[v.index].kind {
            ValueKind::Array(items, _) => items.len(),
            _ => unreached(),
        }
    }

    /// Flags of an array node.
    pub fn array_flags(&self, v: Value) -> (f: ArrayFlags)
        requires
            self.wf(),
            v.index < self.vals().len(),
            self.vals()[v.index as int] is Arr,
        ensures
            f.sequence == arr_flag(self.vals()[v.index as int]),
    {
        proof {
            self.lemma_node_shape(v.index as int);
        }
        match &self.nodes[v.index].kind {
            ValueKind::Array(_, flags) => *flags,
            _ => unreached(),
        }
    }

    /// Entry count of an object.
    pub fn object_len(&self, v: Value) -> (n: usize)
        requires
            self.wf(),
            v.index < self.vals().len(),
            self.vals()[v.index as int] is Obj,
        ensures
            n == obj_entries(self.vals()[v.index as int]).len(),
    {
        proof {
            self.lemma_node_shape(v.index as int);
        }
        match &self.nodes[v.index].kind {
            ValueKind::Object(entries) => entries.len(),
            _ => unreached(),
        }
    }

    /// Numeric payload of a number node.
    pub fn number_value(&self, v: Value) -> (n: i128)
        requires
            self.wf(),
            v.index < self.vals().len(),
            self.vals()[v.index as int] is Num,
        ensures
            self.vals()[v.index as int] == Val::Num(n as int),
    {
        proof {
            self.lemma_node_shape(v.index as int);
        }
        match &self.nodes[v.index].kind {
            ValueKind::Number(n) => *n,
            _ => unreached(),
        }
    }

    /// Copy of a string node's text.
    pub fn as_string(&self, v: Value) -> (s: String)
        requires
            self.wf(),
            v.index < self.vals().len(),
            self.vals()[v.index as int] is Str,
        ensures
            self.vals()[v.index as int] == Val::Str(s@),
    {
        proof {
            self.lemma_node_shape(v.index as int);
        }
        match &self.nodes[v.index].kind {
            ValueKind::Str(s) => s.clone(),
            _ => unreached(),
        }
    }

    /// Truthiness of a scalar (neither `Undefined` nor an array): the
    /// boolean cast of such a value is always a definite boolean.
    pub fn scalar_truthy(&self, v: Value) -> (r: bool)
        requires
            self.wf(),
            v.index < self.vals().len(),
            !(self.vals()[v.index as int] is Arr),
            !(self.vals()[v.index as int] is Undefined),
        ensures
            spec_boolean(self.vals()[v.index as int]) == Val::Bool(r),
    {
        proof {
            self.lemma_node_shape(v.index as int);
        }
        match &self.nodes[v.index].kind {
            ValueKind::Undefined => unreached(),
            ValueKind::Null => false,
            ValueKind::Bool(b) => *b,
            ValueKind::Number(num) => *num != 0,
            ValueKind::Str(s) => !s.as_str().is_empty(),
            ValueKind::Object(entries) => !entries.is_empty(),
            ValueKind::Array(_, _) => unreached(),
            ValueKind::Lambda(_, _) => false,
            ValueKind::NativeFn(_, _) => false,
        }
    }

    /// Handle of member `i` of an array.  The member is referenced by the
    /// array itself, so it is never an unshared node.
    pub fn get_member(&self, v: Value, i: usize) -> (m: Value)
        requires
            self.wf(),
            v.index < self.vals().len(),
            self.vals()[v.index as int] is Arr,
            i < arr_elems(self.vals()[v.index as int]).len(),
        ensures
            m.index < self.vals().len(),
            self.vals()[m.index as int] == arr_elems(self.vals()[v.index as int])[i as int],
            m.index as int == self.refs_of(v.index as int)[i as int],
            !self.unreferenced(m.index as int),
            decreases_to!(self.vals()[v.index as int] => self.vals()[m.index as int]),
    {
        proof {
            self.lemma_node_shape(v.index as int);
        }
        match &self.nodes[v.index].kind {
            ValueKind::Array(items, _) => {
                let c = items[i];
                proof {
                    let k = self.nodes@[v.index as int].kind;
                    assert(kind_children(k)[i as int] == c as int);
                    assert(kind_children(k).contains(c as int));
                    let elems = arr_elems(self.model@[v.index as int]);
                    assert(self.model@[c as int] == elems[i as int]);
                    assert(decreases_to!(elems => elems[i as int]));
                }
                Value { index: c }
            },
            _ => unreached(),
        }
    }

    /// Key text of entry `i` of an object.
    pub fn get_entry_key(&self, v: Value, i: usize) -> (k: String)
        requires
            self.wf(),
            v.index < self.vals().len(),
            self.vals()[v.index as int] is Obj,
            i < obj_entries(self.vals()[v.index as int]).len(),
        ensures
            k@ == obj_entries(self.vals()[v.index as int])[i as int].0,
    {
        proof {
            self.lemma_node_shape(v.index as int);
        }
        match &self.nodes[v.index].kind {
            ValueKind::Object(entries) => entries[i].0.clone(),
            _ => unreached(),
        }
    }

    /// Value handle of entry `i` of an object.
    pub fn get_entry_value(&self, v: Value, i: usize) -> (m: Value)
        requires
            self.wf(),
            v.index < self.vals().len(),
            self.vals()[v.index as int] is Obj,
            i < obj_entries(self.vals()[v.index as int]).len(),
        ensures
            m.index < self.vals().len(),
            self.vals()[m.index as int] == obj_entries(self.vals()[v.index as int])[i as int].1,
            !self.unreferenced(m.index as int),
            decreases_to!(self.vals()[v.index as int] => self.vals()[m.index as int]),
    {
        proof {
            self.lemma_node_shape(v.index as int);
        }
        match &self.nodes[v.index].kind {
            ValueKind::Object(entries) => {
                let c = entries[i].1;
                proof {
                    let k = self.nodes@[v.index as int].kind;
                    assert(kind_children(k)[i as int] == c as int);
                    assert(kind_children(k).contains(c as int));
                    let es = obj_entries(self.model@[v.index as int]);
                    assert(self.model@[c as int] == es[i as int].1);
                    assert(decreases_to!(es => es[i as int]));
                }
                Value { index: c }
            },
            _ => unreached(),
        }
    }

    /// Entry for `key` on an object: the stored handle, or the `Undefined`
    /// constant when the key is absent.  Lookups by key are total.
    pub fn get_entry(&self, o: Value, key: &str) -> (r: Value)
        requires
            self.wf(),
            o.index < self.vals().len(),
            self.vals()[o.index as int] is Obj,
        ensures
            r.index < self.vals().len(),
            self.vals()[r.index as int] == spec_entry(
                obj_entries(self.vals()[o.index as int]),
                key@,
            ),
            !self.unreferenced(r.index as int) || self.vals()[r.index as int] is Undefined,
    {
        let ks: String = key.to_owned();
        let ghost ges = obj_entries(self.vals()[o.index as int]);
        let n = self.object_len(o);
        let mut i: usize = 0;
        while i < n
            invariant
                i <= n,
                self.wf(),
                o.index < self.vals().len(),
                self.vals()[o.index as int] is Obj,
                ges == obj_entries(self.vals()[o.index as int]),
                n == ges.len(),
                ks@ == key@,
                forall|j: int| 0 <= j < i ==> (#[trigger] ges[j]).0 != key@,
            decreases n - i,
        {
            let entry_key = self.get_entry_key(o, i);
            if entry_key == ks {
                let r = self.get_entry_value(o, i);
                proof {
                    lemma_spec_entry_skip(ges, key@, i as int);
                    assert(ges.skip(i as int)[0] == ges[i as int]);
                }
                return r;
            }
            i += 1;
        }
        proof {
            lemma_spec_entry_skip(ges, key@, n as int);
            assert(ges.skip(n as int) =~= Seq::empty());
        }
        Value { index: 0 }
    }

    /// A model update at a slot no child of `k` points to leaves the
    /// node's match intact.
    proof fn lemma_matches_update(k: ValueKind, v: Val, vs: Seq<Val>, t: int, nv: Val)
        requires
            node_matches(k, v, vs),
            !kind_children(k).contains(t),
            0 <= t < vs.len(),
        ensures
            node_matches(k, v, vs.update(t, nv)),
    {
        let vs2 = vs.update(t, nv);
        match k {
            ValueKind::Array(items, _) => {
                let elems = arr_elems(v);
                assert forall|i: int|
                    0 <= i < items@.len() implies (#[trigger] items@[i]) < vs2.len() && elems[i]
                        == vs2[items@[i] as int] by {
                    if items@[i] as int == t {
                        assert(kind_children(k)[i] == t);
                    }
                    assert(vs2[items@[i] as int] == vs[items@[i] as int]);
                }
            },
            ValueKind::Object(entries) => {
                let es = obj_entries(v);
                assert forall|i: int|
                    0 <= i < entries@.len() implies (#[trigger] entries@[i]).1 < vs2.len()
                        && es[i].1 == vs2[entries@[i].1 as int] by {
                    if entries@[i].1 as int == t {
                        assert(kind_children(k)[i] == t);
                    }
                    assert(vs2[entries@[i].1 as int] == vs[entries@[i].1 as int]);
                }
            },
            _ => {},
        }
    }

    fn take_node(&mut self, i: usize) -> (n: Node)
        requires
            i < old(self).nodes@.len(),
        ensures
            n == old(self).nodes@[i as int],
            final(self).nodes@ == old(self).nodes@.update(
                i as int,
                (Node { kind: ValueKind::Undefined, rc: 0 }),
            ),
            final(self).model@ == old(self).model@,
    {
        let mut tmp = Node { kind: ValueKind::Undefined, rc: 0 };
        core::mem::swap(&mut self.nodes[i], &mut tmp);
        tmp
    }

    fn put_node(&mut self, i: usize, n: Node)
        requires
            i < old(self).nodes@.len(),
        ensures
            final(self).nodes@ == old(self).nodes@.update(i as int, n),
            final(self).model@ == old(self).model@,
    {
        self.nodes[i] = n;
    }

    /// Append the handle `c` as the last member of the array `a`, retaining
    /// it.  Legal only while `a` is unshared (held by no container), so the
    /// values other nodes denote cannot change under them.
    pub fn push_index(&mut self, a: Value, c: Value)
        requires
            old(self).wf(),
            a.index < old(self).vals().len(),
            c.index < old(self).vals().len(),
            old(self).vals()[a.index as int] is Arr,
            old(self).unreferenced(a.index as int),
            a.index != c.index,
        ensures
            final(self).wf(),
            final(self).vals() == old(self).vals().update(
                a.index as int,
                Val::Arr(
                    arr_elems(old(self).vals()[a.index as int]).push(
                        old(self).vals()[c.index as int],
                    ),
                    arr_flag(old(self).vals()[a.index as int]),
                ),
            ),
            forall|h: int|
                old(self).unreferenced(h) && h != c.index ==> final(self).unreferenced(h),
            forall|h: int| !old(self).unreferenced(h) ==> !final(self).unreferenced(h),
            final(self).refs_of(a.index as int) == old(self).refs_of(a.index as int).push(
                c.index as int,
            ),
            forall|j: int|
                0 <= j < old(self).vals().len() && j != a.index ==> final(self).refs_of(j)
                    == #[trigger] old(self).refs_of(j),
    {
        let ghost oldp = *self;
        self.bump_rc(c.index);
        let ghost p1 = *self;
        proof {
            Self::lemma_same_structure(oldp, p1);
            p1.lemma_node_shape(a.index as int);
        }
        let node = self.take_node(a.index);
        let ghost newval = Val::Arr(
            arr_elems(oldp.vals()[a.index as int]).push(oldp.vals()[c.index as int]),
            arr_flag(oldp.vals()[a.index as int]),
        );
        match node {
            Node { kind: ValueKind::Array(mut items, flags), rc } => {
                let ghost old_items = items@;
                let ghost old_k = oldp.nodes@[a.index as int].kind;
                items.push(c.index);
                self.put_node(a.index, Node { kind: ValueKind::Array(items, flags), rc });
                self.model = Ghost(self.model@.update(a.index as int, newval));
                proof {
                    let av = a.index as int;
                    let cv = c.index as int;
                    let vs2 = self.model@;
                    let old_elems = arr_elems(oldp.model@[av]);
                    // The unshared target is pointed to by no node, itself
                    // included, so every other node still matches.
                    assert forall|j: int|
                        0 <= j < self.nodes@.len() implies node_matches(
                        (#[trigger] self.nodes@[j]).kind,
                        vs2[j],
                        vs2,
                    ) by {
                        assert(node_matches(oldp.nodes@[j].kind, oldp.model@[j], oldp.model@));
                        assert(!kind_children(oldp.nodes@[j].kind).contains(av));
                        Self::lemma_matches_update(
                            oldp.nodes@[j].kind,
                            oldp.model@[j],
                            oldp.model@,
                            av,
                            newval,
                        );
                        if j == av {
                            assert(node_matches(old_k, oldp.model@[av], vs2));
                            let k2 = self.nodes@[av].kind;
                            assert(k2 == ValueKind::Array(items, flags));
                            assert(items@ == old_items.push(c.index));
                            assert forall|i: int|
                                0 <= i < items@.len() implies (#[trigger] items@[i]) < vs2.len()
                                    && arr_elems(newval)[i] == vs2[items@[i] as int] by {
                                if i < old_items.len() {
                                    assert(items@[i] == old_items[i]);
                                    assert(arr_elems(newval)[i] == old_elems[i]);
                                } else {
                                    assert(items@[i] == c.index);
                                    assert(vs2[cv] == oldp.model@[cv]);
                                }
                            }
                            assert(node_matches(k2, newval, vs2));
                        } else {
                            assert(self.nodes@[j].kind == oldp.nodes@[j].kind);
                        }
                    }
                    assert(self.wf());
                    assert(kind_children(self.nodes@[av].kind) =~= kind_children(old_k).push(cv));
                    assert forall|j: int|
                        0 <= j < oldp.vals().len() && j != av implies self.refs_of(j)
                            == #[trigger] oldp.refs_of(j) by {
                        assert(self.nodes@[j].kind == oldp.nodes@[j].kind);
                    }
                    assert forall|h: int|
                        oldp.unreferenced(h) && h != cv implies self.unreferenced(h) by {
                        assert forall|j: int|
                            0 <= j < self.nodes@.len() implies !kind_children(
                            (#[trigger] self.nodes@[j]).kind,
                        ).contains(h) by {
                            if j != av {
                                assert(self.nodes@[j].kind == oldp.nodes@[j].kind);
                            } else {
                                assert(!kind_children(old_k).contains(h));
                                if kind_children(self.nodes@[av].kind).contains(h) {
                                    let i = choose|i: int|
                                        0 <= i < kind_children(self.nodes@[av].kind).len()
                                            && kind_children(self.nodes@[av].kind)[i] == h;
                                    if i < old_items.len() {
                                        assert(kind_children(old_k)[i] == h);
                                    } else {
                                        assert(h == cv);
                                    }
                                }
                            }
                        }
                    }
                    assert forall|h: int| !oldp.unreferenced(h) implies !self.unreferenced(h) by {
                        let j = choose|j: int|
                            0 <= j < oldp.nodes@.len() && kind_children(
                                (#[trigger] oldp.nodes@[j]).kind,
                            ).contains(h);
                        if j != av {
                            assert(self.nodes@[j].kind == oldp.nodes@[j].kind);
                            assert(kind_children(self.nodes@[j].kind).contains(h));
                        } else {
                            let i = choose|i: int|
                                0 <= i < kind_children(old_k).len() && kind_children(old_k)[i]
                                    == h;
                            assert(kind_children(self.nodes@[j].kind)[i] == h);
                            assert(kind_children(self.nodes@[j].kind).contains(h));
                        }
                        assert(!self.unreferenced(h));
                    }
                }
            },
            _ => {
                proof {
                    assert(false);
                }
            },
        }
    }

    /// Add an entry under a key not yet present, retaining the stored
    /// handle.  Legal only while the object `o` is unshared.
    pub fn set_entry(&mut self, o: Value, key: &str, c: Value)
        requires
            old(self).wf(),
            o.index < old(self).vals().len(),
            c.index < old(self).vals().len(),
            old(self).vals()[o.index as int] is Obj,
            old(self).unreferenced(o.index as int),
            o.index != c.index,
            !obj_has_key(obj_entries(old(self).vals()[o.index as int]), key@),
        ensures
            final(self).wf(),
            final(self).vals() == old(self).vals().update(
                o.index as int,
                Val::Obj(
                    obj_entries(old(self).vals()[o.index as int]).push(
                        (key@, old(self).vals()[c.index as int]),
                    ),
                ),
            ),
            forall|h: int|
                old(self).unreferenced(h) && h != c.index ==> final(self).unreferenced(h),
            forall|h: int| !old(self).unreferenced(h) ==> !final(self).unreferenced(h),
    {
        let ghost oldp = *self;
        self.bump_rc(c.index);
        proof {
            Self::lemma_same_structure(oldp, *self);
            self.lemma_node_shape(o.index as int);
        }
        let new_key: String = key.to_owned();
        let node = self.take_node(o.index);
        let ghost newval = Val::Obj(
            obj_entries(oldp.vals()[o.index as int]).push((key@, oldp.vals()[c.index as int])),
        );
        match node {
            Node { kind: ValueKind::Object(mut entries), rc } => {
                let ghost old_entries = entries@;
                let ghost old_k = oldp.nodes@[o.index as int].kind;
                entries.push((new_key, c.index));
                self.put_node(o.index, Node { kind: ValueKind::Object(entries), rc });
                self.model = Ghost(self.model@.update(o.index as int, newval));
                proof {
                    let ov = o.index as int;
                    let cv = c.index as int;
                    let vs2 = self.model@;
                    let old_es = obj_entries(oldp.model@[ov]);
                    assert forall|j: int|
                        0 <= j < self.nodes@.len() implies node_matches(
                        (#[trigger] self.nodes@[j]).kind,
                        vs2[j],
                        vs2,
                    ) by {
                        assert(node_matches(oldp.nodes@[j].kind, oldp.model@[j], oldp.model@));
                        assert(!kind_children(oldp.nodes@[j].kind).contains(ov));
                        Self::lemma_matches_update(
                            oldp.nodes@[j].kind,
                            oldp.model@[j],
                            oldp.model@,
                            ov,
                            newval,
                        );
                        if j == ov {
                            assert(node_matches(old_k, oldp.model@[ov], vs2));
                            let k2 = self.nodes@[ov].kind;
                            assert(k2 == ValueKind::Object(entries));
                            assert(entries@ == old_entries.push((new_key, c.index)));
                            assert forall|i: int|
                                0 <= i < entries@.len() implies (#[trigger] entries@[i]).1
                                    < vs2.len() && obj_entries(newval)[i].0 == entries@[i].0@
                                    && obj_entries(newval)[i].1 == vs2[entries@[i].1 as int] by {
                                if i < old_entries.len() {
                                    assert(entries@[i] == old_entries[i]);
                                    assert(obj_entries(newval)[i] == old_es[i]);
                                } else {
                                    assert(entries@[i] == (new_key, c.index));
                                    assert(vs2[cv] == oldp.model@[cv]);
                                }
                            }
                            assert(node_matches(k2, newval, vs2));
                        } else {
                            assert(self.nodes@[j].kind == oldp.nodes@[j].kind);
                        }
                    }
                    assert(self.wf());
                    assert forall|h: int|
                        oldp.unreferenced(h) && h != cv implies self.unreferenced(h) by {
                        assert forall|j: int|
                            0 <= j < self.nodes@.len() implies !kind_children(
                            (#[trigger] self.nodes@[j]).kind,
                        ).contains(h) by {
                            if j != ov {
                                assert(self.nodes@[j].kind == oldp.nodes@[j].kind);
                            } else {
                                assert(!kind_children(old_k).contains(h));
                                if kind_children(self.nodes@[ov].kind).contains(h) {
                                    let i = choose|i: int|
                                        0 <= i < kind_children(self.nodes@[ov].kind).len()
                                            && kind_children(self.nodes@[ov].kind)[i] == h;
                                    if i < old_entries.len() {
                                        assert(kind_children(old_k)[i] == h);
                                    } else {
                                        assert(h == cv);
                                    }
                                }
                            }
                        }
                    }
                    assert forall|h: int| !oldp.unreferenced(h) implies !self.unreferenced(h) by {
                        let j = choose|j: int|
                            0 <= j < oldp.nodes@.len() && kind_children(
                                (#[trigger] oldp.nodes@[j]).kind,
                            ).contains(h);
                        if j != ov {
                            assert(self.nodes@[j].kind == oldp.nodes@[j].kind);
                            assert(kind_children(self.nodes@[j].kind).contains(h));
                        } else {
                            let i = choose|i: int|
                                0 <= i < kind_children(old_k).len() && kind_children(old_k)[i]
                                    == h;
                            assert(kind_children(self.nodes@[j].kind)[i] == h);
                            assert(kind_children(self.nodes@[j].kind).contains(h));
                        }
                        assert(!self.unreferenced(h));
                    }
                }
            },
            _ => {
                proof {
                    assert(false);
                }
            },
        }
    }

    /// A fresh node with the same payload as `v`: a scalar copy, or a new
    /// container sharing (and retaining) the same child handles.
    pub fn shallow_copy(&mut self, v: Value) -> (r: Value)
        requires
            old(self).wf(),
            v.index < old(self).vals().len(),
        ensures
            final(self).wf(),
            final(self).vals() == old(self).vals().push(old(self).vals()[v.index as int]),
            r.index == old(self).vals().len(),
            final(self).unreferenced(r.index as int),
            forall|h: int| old(self).unreferenced(h) ==> final(self).unreferenced(h),
            forall|h: int| !old(self).unreferenced(h) ==> !final(self).unreferenced(h),
            final(self).refs_of(r.index as int) == old(self).refs_of(v.index as int),
            forall|j: int|
                0 <= j < old(self).vals().len() ==> final(self).refs_of(j) == #[trigger] old(
                    self,
                ).refs_of(j),
    {
        let ghost oldp = *self;
        // The copy shares the original's children: claim one reference each.
        let n = self.child_count(v);
        let mut i: usize = 0;
        while i < n
            invariant
                i <= n,
                self.wf(),
                v.index < self.vals().len(),
                self.model@ == oldp.model@,
                self.nodes@.len() == oldp.nodes@.len(),
                forall|j: int|
                    0 <= j < oldp.nodes@.len() ==> (#[trigger] self.nodes@[j]).kind
                        == oldp.nodes@[j].kind,
                forall|h: int| self.unreferenced(h) == oldp.unreferenced(h),
                n == self.refs_of(v.index as int).len(),
            decreases n - i,
        {
            let c = self.child_at(v, i);
            let ghost before = *self;
            self.bump_rc(c);
            proof {
                Self::lemma_same_structure(before, *self);
            }
            i += 1;
        }
        let ghost vval = self.model@[v.index as int];
        proof {
            self.lemma_node_shape(v.index as int);
        }
        let newkind = match &self.nodes[v.index].kind {
            ValueKind::Undefined => ValueKind::Undefined,
            ValueKind::Null => ValueKind::Null,
            ValueKind::Bool(b) => ValueKind::Bool(*b),
            ValueKind::Number(num) => ValueKind::Number(*num),
            ValueKind::Str(s) => ValueKind::Str(s.clone()),
            ValueKind::Lambda(p, b) => ValueKind::Lambda(*p, *b),
            ValueKind::NativeFn(a, id) => ValueKind::NativeFn(*a, *id),
            ValueKind::Array(items, flags) => {
                let m = items.len();
                let mut items2: Vec<usize> = Vec::new();
                let mut k: usize = 0;
                while k < m
                    invariant
                        k <= m,
                        m == items@.len(),
                        items2@.len() == k,
                        forall|j: int| 0 <= j < k ==> items2@[j] == #[trigger] items@[j],
                    decreases m - k,
                {
                    items2.push(items[k]);
                    k += 1;
                }
                proof {
                    assert(items2@ =~= items@);
                }
                ValueKind::Array(items2, *flags)
            },
            ValueKind::Object(entries) => {
                let m = entries.len();
                let mut entries2: Vec<(String, usize)> = Vec::new();
                let mut k: usize = 0;
                while k < m
                    invariant
                        k <= m,
                        m == entries@.len(),
                        entries2@.len() == k,
                        forall|j: int| 0 <= j < k ==> entries2@[j] == #[trigger] entries@[j],
                    decreases m - k,
                {
                    entries2.push((entries[k].0.clone(), entries[k].1));
                    k += 1;
                }
                proof {
                    assert(entries2@ =~= entries@);
                }
                ValueKind::Object(entries2)
            },
        };
        proof {
            let vk = self.nodes@[v.index as int].kind;
            assert(node_matches(vk, vval, self.model@));
            assert(kind_children(newkind) =~= kind_children(vk));
            assert(node_matches(newkind, vval, self.model@));
            assert forall|h: int|
                self.unreferenced(h) implies !kind_children(newkind).contains(h) by {
                assert(!kind_children(vk).contains(h));
            }
        }
        let ghost before_alloc = *self;
        let r = self.alloc_node(newkind, Ghost(vval));
        proof {
            assert forall|h: int| oldp.unreferenced(h) implies self.unreferenced(h) by {}
            assert forall|j: int|
                0 <= j < oldp.vals().len() implies self.refs_of(j) == #[trigger] oldp.refs_of(
                j,
            ) by {
                assert(self.refs_of(j) == before_alloc.refs_of(j));
                assert(before_alloc.nodes@[j].kind == oldp.nodes@[j].kind);
            }
            assert(self.refs_of(r.index as int) == before_alloc.refs_of(v.index as int));
            assert(before_alloc.nodes@[v.index as int].kind == oldp.nodes@[v.index as int].kind);
        }
        r
    }

    /// The "treat a scalar as a singleton sequence" rule: an array is
    /// returned unchanged; any other value is wrapped in a fresh length-1
    /// array with the given flags, retaining the value.
    pub fn wrap_in_array_if_needed(&mut self, v: Value, flags: ArrayFlags) -> (r: Value)
        requires
            old(self).wf(),
            v.index < old(self).vals().len(),
        ensures
            final(self).wf(),
            old(self).vals()[v.index as int] is Arr ==> r == v && *final(self) == *old(self),
            !(old(self).vals()[v.index as int] is Arr) ==> {
                &&& final(self).vals() == old(self).vals().push(
                    Val::Arr(seq![old(self).vals()[v.index as int]], flags.sequence),
                )
                &&& r.index == old(self).vals().len()
                &&& final(self).unreferenced(r.index as int)
                &&& forall|h: int|
                    old(self).unreferenced(h) && h != v.index ==> final(self).unreferenced(h)
                &&& final(self).refs_of(r.index as int) == seq![v.index as int]
                &&& forall|j: int|
                    0 <= j < old(self).vals().len() ==> final(self).refs_of(j) == #[trigger] old(
                        self,
                    ).refs_of(j)
            },
    {
        if self.is_array(v) {
            v
        } else {
            let ghost oldp = *self;
            let a = self.array_with_flags(flags);
            let ghost mid = *self;
            self.push_index(a, v);
            proof {
                let vv = oldp.vals()[v.index as int];
                assert(arr_elems(mid.vals()[a.index as int]) =~= Seq::<Val>::empty());
                assert(Seq::<Val>::empty().push(vv) =~= seq![vv]);
                assert(self.vals() =~= oldp.vals().push(Val::Arr(seq![vv], flags.sequence)));
                assert(self.refs_of(a.index as int) =~= seq![v.index as int]);
            }
            a
        }
    }

    /// Number of nodes whose storage is still claimed.
    pub fn live_count(&self) -> (n: usize)
        ensures
            n as int == self.live(),
    {
        let total = self.nodes.len();
        let mut n: usize = 0;
        let mut j: usize = 0;
        while j < total
            invariant
                j <= total,
                total == self.nodes@.len(),
                n <= j,
                n as int == self.live_below(j as int),
            decreases total - j,
        {
            if self.nodes[j].rc > 0 {
                n += 1;
            }
            j += 1;
        }
        n
    }
}

} // verus!
