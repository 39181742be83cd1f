//! The node arena.
//!
//! Every reactive value lives as one node in a [`Graph`].  A node is either a
//! source cell holding a value, a derived node holding a recomputation
//! operator together with its memoized value and a stale flag, or a watch
//! node (a one-shot or persistent notification flag).  Edges are stored twice:
//! a derived node lists the indices of its dependencies (`deps`, pointing at
//! strictly smaller indices, which makes every graph acyclic by
//! construction), and every node lists its subscribers (`subs`, pointing at
//! strictly larger indices).  Indices are never reused; a destroyed node is
//! recognised by its cleared `alive` flag.

use vstd::prelude::*;

verus! {

/// What a derived node does when it is recomputed: combine the current
/// values of its dependencies, in dependency-list order, into a new value.
///
/// Implementations are the engine's analogue of a recomputation closure: one
/// implementing type per family of derived nodes, carrying whatever constants
/// the closure would capture.  `spec_recompute` is the mathematical meaning
/// of the operator; `recompute` must return exactly that.
pub trait Recompute<V>: Sized {
    spec fn spec_recompute(&self, inputs: Seq<V>) -> V;

    fn recompute(&self, inputs: &Vec<V>) -> (r: V)
        ensures
            r == self.spec_recompute(inputs@),
    ;
}

/// Wrapping sum of a sequence of machine integers.
pub open spec fn wrap_sum(s: Seq<i64>) -> i64
    decreases s.len(),
{
    if s.len() == 0 {
        0i64
    } else {
        vstd::wrapping::i64_specs::wrapping_add(wrap_sum(s.drop_last()), s.last())
    }
}

/// The recomputation operator used by the integer combinators and the tests:
/// the wrapping sum of all inputs plus a constant offset.
///
/// `AddConst { offset: 0 }` is plain addition of the inputs;
/// `AddConst { offset: k }` stands for a closure `|a, b, ...| a + b + ... + k`.
#[derive(Clone, Copy)]
pub struct AddConst {
    pub offset: i64,
}

impl Recompute<i64> for AddConst {
    open spec fn spec_recompute(&self, inputs: Seq<i64>) -> i64 {
        vstd::wrapping::i64_specs::wrapping_add(wrap_sum(inputs), self.offset)
    }

    fn recompute(&self, inputs: &Vec<i64>) -> (r: i64)
        ensures
            r == self.spec_recompute(inputs@),
    {
        let mut acc: i64 = 0;
        let mut j: usize = 0;
        while j < inputs.len()
            invariant
                j <= inputs@.len(),
                acc == wrap_sum(inputs@.take(j as int)),
            decreases inputs@.len() - j,
        {
            proof {
                assert(inputs@.take(j + 1 as int).drop_last() =~= inputs@.take(j as int));
                assert(inputs@.take(j + 1 as int).last() == inputs@[j as int]);
            }
            acc = acc.wrapping_add(inputs[j]);
            j += 1;
        }
        proof {
            assert(inputs@.take(inputs@.len() as int) =~= inputs@);
        }
        acc.wrapping_add(self.offset)
    }
}

enum Payload<V, C> {
    /// A source cell: always current, never stale.
    Value { value: V },
    /// A derived node: memoized result of `f` over the nodes in `deps`.
    Compute { f: C, deps: Vec<usize>, cached: Option<V>, stale: bool },
    /// A watch node: a notification flag set whenever the watched node is
    /// invalidated; `keep` says whether it stays registered after firing.
    Watch { fired: bool, keep: bool },
}

struct Node<V, C> {
    /// Cleared when the node is destroyed; indices are never reused.
    alive: bool,
    /// Whether the application still holds this node (releasing clears it).
    pinned: bool,
    payload: Payload<V, C>,
    /// Indices of subscribers to invalidate when this node changes.
    subs: Vec<usize>,
}

/// The arena holding one reactive graph.
///
/// All operations go through the owning `Graph`; handles are plain indices.
/// `V` is the value type of every node and `C` the recomputation operator of
/// the derived nodes.
pub struct Graph<V, C> {
    nodes: Vec<Node<V, C>>,
    /// How often each derived node has been recomputed, for stating that
    /// reads are memoized; this is specification-only bookkeeping.
    recomputed: Ghost<Map<int, nat>>,
}

impl<V: Copy, C: Recompute<V>> Graph<V, C> {
    /// Number of nodes ever created (destroyed ones included).
    pub closed spec fn n(self) -> int {
        self.nodes@.len() as int
    }

    /// Whether `i` indexes a node of this graph.
    pub open spec fn valid(self, i: int) -> bool {
        0 <= i < self.n()
    }

    pub closed spec fn alive(self, i: int) -> bool {
        self.nodes@[i].alive
    }

    pub closed spec fn pinned(self, i: int) -> bool {
        self.nodes@[i].pinned
    }

    pub closed spec fn is_cell(self, i: int) -> bool {
        self.nodes@[i].payload matches Payload::Value { .. }
    }

    pub closed spec fn is_derived(self, i: int) -> bool {
        self.nodes@[i].payload matches Payload::Compute { .. }
    }

    pub closed spec fn is_watch(self, i: int) -> bool {
        self.nodes@[i].payload matches Payload::Watch { .. }
    }

    /// The value stored in cell `i`.
    pub closed spec fn value(self, i: int) -> V {
        match self.nodes@[i].payload {
            Payload::Value { value } => value,
            _ => arbitrary(),
        }
    }

    /// The recomputation operator of derived node `i`.
    pub closed spec fn op(self, i: int) -> C {
        match self.nodes@[i].payload {
            Payload::Compute { f, .. } => f,
            _ => arbitrary(),
        }
    }

    /// The dependency list of derived node `i`; empty for other nodes.
    pub closed spec fn deps(self, i: int) -> Seq<usize> {
        match self.nodes@[i].payload {
            Payload::Compute { deps, .. } => deps@,
            _ => Seq::empty(),
        }
    }

    /// The `j`-th dependency of node `i`, as an index.
    pub open spec fn dep_at(self, i: int, j: int) -> int {
        self.deps(i)[j] as int
    }

    /// The `k`-th subscriber of node `i`, as an index.
    pub open spec fn sub_at(self, i: int, k: int) -> int {
        self.subs(i)[k] as int
    }

    /// Whether derived node `i` must recompute before its value can be
    /// trusted.  Cells and watch nodes are never stale.
    pub closed spec fn stale(self, i: int) -> bool {
        match self.nodes@[i].payload {
            Payload::Compute { stale, .. } => stale,
            _ => false,
        }
    }

    /// The memoized value of derived node `i`.
    pub closed spec fn cached(self, i: int) -> Option<V> {
        match self.nodes@[i].payload {
            Payload::Compute { cached, .. } => cached,
            _ => None,
        }
    }

    /// Whether watch node `i` has been notified since it was created.
    pub closed spec fn fired(self, i: int) -> bool {
        match self.nodes@[i].payload {
            Payload::Watch { fired, .. } => fired,
            _ => false,
        }
    }

    /// Whether watch node `i` stays subscribed after firing.
    pub closed spec fn keep(self, i: int) -> bool {
        match self.nodes@[i].payload {
            Payload::Watch { keep, .. } => keep,
            _ => false,
        }
    }

    /// The subscriber list of node `i`.
    pub closed spec fn subs(self, i: int) -> Seq<usize> {
        self.nodes@[i].subs@
    }

    /// How often derived node `i` has been recomputed so far.
    pub closed spec fn recomputed(self, i: int) -> nat {
        if self.recomputed@.dom().contains(i) {
            self.recomputed@[i]
        } else {
            0
        }
    }

    /// A node whose value may be read without recomputing first: a cell, or
    /// a derived node that is not stale.
    pub open spec fn fresh(self, i: int) -> bool {
        !self.stale(i)
    }

    /// The stored value of node `i`: a cell's value, or a derived node's
    /// memoized value.  Meaningful only while `i` is fresh.
    pub open spec fn current(self, i: int) -> V {
        if self.is_cell(i) {
            self.value(i)
        } else {
            self.cached(i)->Some_0
        }
    }

    /// Structural well-formedness: dependency edges point strictly down,
    /// subscription edges strictly up, subscriber lists hold no duplicates
    /// (one registration per handle identity), watch nodes are terminal, and
    /// a live derived node keeps all its dependencies alive.
    pub closed spec fn wf_at(self, i: int) -> bool {
        &&& (forall|j: int|
            0 <= j < self.deps(i).len() ==> {
                &&& 0 <= #[trigger] self.dep_at(i, j) < i
                &&& !self.is_watch(self.dep_at(i, j))
                &&& (self.alive(i) ==> self.alive(self.dep_at(i, j)))
            })
        &&& (forall|k: int|
            0 <= k < self.subs(i).len() ==> {
                &&& i < #[trigger] self.sub_at(i, k) < self.n()
                &&& !self.is_cell(self.sub_at(i, k))
            })
        &&& self.subs(i).no_duplicates()
        &&& (self.is_watch(i) ==> self.subs(i).len() == 0)
    }

    pub closed spec fn wf(self) -> bool {
        forall|i: int| self.valid(i) ==> #[trigger] self.wf_at(i)
    }

    /// The current values of node `i`'s dependencies, in order.
    pub open spec fn curr_dep_vals(self, i: int) -> Seq<V> {
        Seq::new(self.deps(i).len(), |j: int| self.current(self.dep_at(i, j)))
    }

    /// Dependency `j` of node `i` is in good shape for a fresh subscriber:
    /// alive, and it has `i` registered as a subscriber.
    pub open spec fn dep_live(self, i: int, j: int) -> bool {
        &&& self.alive(self.dep_at(i, j))
        &&& self.subs(self.dep_at(i, j)).contains(i as usize)
    }

    /// The memoized value of a fresh derived node `i` agrees with its
    /// dependencies: they are all fresh themselves, and the cache holds
    /// exactly the operator applied to their stored values.
    pub open spec fn node_ok(self, i: int) -> bool {
        &&& (forall|j: int|
            0 <= j < self.deps(i).len() ==> self.fresh(#[trigger] self.dep_at(i, j)))
        &&& self.cached(i) == Some(self.op(i).spec_recompute(self.curr_dep_vals(i)))
    }

    /// Coherence of node `i`, excusing nodes that depend on a member of
    /// `ex` (used while an invalidation cascade is in flight: `ex` holds the
    /// nodes whose change has not been propagated yet).
    pub open spec fn coh_at(self, i: int, ex: Set<int>) -> bool {
        self.alive(i) && self.is_derived(i) && !self.stale(i) ==> {
            &&& (forall|j: int| 0 <= j < self.deps(i).len() ==> #[trigger] self.dep_live(i, j))
            &&& ((forall|j: int|
                0 <= j < self.deps(i).len() ==> !ex.contains(#[trigger] self.dep_at(i, j)))
                ==> self.node_ok(i))
        }
    }

    pub closed spec fn coh_exc(self, ex: Set<int>) -> bool {
        forall|i: int| self.valid(i) ==> #[trigger] self.coh_at(i, ex)
    }

    /// Full coherence: every live, fresh derived node is subscribed to all
    /// its dependencies and memoizes exactly the combination of their stored
    /// values.  Together with `wf` this is the invariant every public
    /// operation preserves.
    pub open spec fn coh(self) -> bool {
        self.coh_exc(Set::empty())
    }

    /// The denotation of node `i`: the value a recomputation from scratch
    /// would produce, ignoring all memoized state.  This is what a read of
    /// `i` is specified to return.
    pub closed spec fn denot(self, i: int) -> V
        decreases i, 1int, 0int,
    {
        if self.valid(i) && self.is_cell(i) {
            self.value(i)
        } else if self.valid(i) && self.is_derived(i) {
            self.op(i).spec_recompute(self.denot_deps(self.deps(i), i))
        } else {
            arbitrary()
        }
    }

    /// The denotations of the nodes listed in `ds`, all of which lie below
    /// the bound `b` in a well-formed graph.
    pub closed spec fn denot_deps(self, ds: Seq<usize>, b: int) -> Seq<V>
        decreases b, 0int, ds.len(),
    {
        if ds.len() == 0 {
            Seq::empty()
        } else if 0 <= ds.last() < b {
            self.denot_deps(ds.drop_last(), b).push(self.denot(ds.last() as int))
        } else {
            self.denot_deps(ds.drop_last(), b).push(arbitrary())
        }
    }

    /// Node `i` has the same constructive content in `self` and `other`:
    /// same kind, and the same cell value or operator and dependency list.
    /// The denotation of a node depends on nothing else.
    pub open spec fn core_eq_at(self, other: Self, i: int) -> bool {
        &&& self.is_cell(i) == other.is_cell(i)
        &&& self.is_derived(i) == other.is_derived(i)
        &&& (self.is_cell(i) ==> self.value(i) == other.value(i))
        &&& (self.is_derived(i) ==> self.op(i) == other.op(i) && self.deps(i) == other.deps(i))
    }

    /// Node `i` is identical in `self` and `other`.
    pub open spec fn node_eq_at(self, other: Self, i: int) -> bool {
        &&& self.core_eq_at(other, i)
        &&& self.is_watch(i) == other.is_watch(i)
        &&& self.alive(i) == other.alive(i)
        &&& self.pinned(i) == other.pinned(i)
        &&& self.stale(i) == other.stale(i)
        &&& self.cached(i) == other.cached(i)
        &&& self.fired(i) == other.fired(i)
        &&& self.keep(i) == other.keep(i)
        &&& self.subs(i) == other.subs(i)
        &&& self.recomputed(i) == other.recomputed(i)
    }

    /// The denotation of a node below `bound` depends only on the nodes up
    /// to `bound`.
    pub proof fn lemma_denot_local(self, other: Self, bound: int, i: int)
        requires
            bound <= self.n(),
            bound <= other.n(),
            forall|x: int| 0 <= x < bound ==> self.core_eq_at(other, x),
            i < bound,
        ensures
            self.denot(i) == other.denot(i),
        decreases i, 1int, 0int,
    {
        if 0 <= i {
            assert(self.core_eq_at(other, i));
        }
        if self.valid(i) && self.is_derived(i) {
            self.lemma_denot_deps_local(other, bound, self.deps(i), i);
        }
    }

    /// Companion of [`Self::lemma_denot_local`] for dependency lists.
    pub proof fn lemma_denot_deps_local(self, other: Self, bound: int, ds: Seq<usize>, b: int)
        requires
            bound <= self.n(),
            bound <= other.n(),
            forall|x: int| 0 <= x < bound ==> self.core_eq_at(other, x),
            b <= bound,
        ensures
            self.denot_deps(ds, b) == other.denot_deps(ds, b),
        decreases b, 0int, ds.len(),
    {
        if ds.len() > 0 {
            self.lemma_denot_deps_local(other, bound, ds.drop_last(), b);
            if 0 <= ds.last() < b {
                self.lemma_denot_local(other, bound, ds.last() as int);
            }
        }
    }

    /// The denotation of a fresh dependency list entry, element by element:
    /// in a well-formed graph, `denot_deps(deps(i), i)` is pointwise the
    /// denotation of the listed nodes.
    pub proof fn lemma_denot_deps_index(self, ds: Seq<usize>, b: int, j: int)
        requires
            0 <= j < ds.len(),
            0 <= ds[j] < b,
        ensures
            self.denot_deps(ds, b).len() == ds.len(),
            self.denot_deps(ds, b)[j] == self.denot(ds[j] as int),
        decreases ds.len(),
    {
        self.lemma_denot_deps_len(ds, b);
        if j < ds.len() - 1 {
            self.lemma_denot_deps_index(ds.drop_last(), b, j);
        }
    }

    pub proof fn lemma_denot_deps_len(self, ds: Seq<usize>, b: int)
        ensures
            self.denot_deps(ds, b).len() == ds.len(),
        decreases ds.len(),
    {
        if ds.len() > 0 {
            self.lemma_denot_deps_len(ds.drop_last(), b);
        }
    }

    /// Creates an empty graph.
    pub fn new() -> (g: Graph<V, C>)
        ensures
            g.wf(),
            g.coh(),
            g.n() == 0,
    {
        Graph { nodes: Vec::new(), recomputed: Ghost(Map::empty()) }
    }

    /// A graph that grew by one node, whose old nodes are untouched and
    /// whose new node is either a cell, a watch, or a stale derived node
    /// with downward, watch-free, live dependencies, is well formed and
    /// coherent again.
    proof fn lemma_append_preserves(pre: Self, post: Self)
        requires
            pre.wf(),
            pre.coh(),
            post.n() == pre.n() + 1,
            forall|x: int| 0 <= x < pre.n() ==> #[trigger] pre.node_eq_at(post, x),
            post.subs(pre.n()).len() == 0,
            post.stale(pre.n()) || !post.is_derived(pre.n()),
            forall|j: int|
                0 <= j < post.deps(pre.n()).len() ==> {
                    &&& 0 <= #[trigger] post.dep_at(pre.n(), j) < pre.n()
                    &&& !post.is_watch(post.dep_at(pre.n(), j))
                    &&& (post.alive(pre.n()) ==> post.alive(post.dep_at(pre.n(), j)))
                },
        ensures
            post.wf(),
            post.coh(),
            forall|x: int| 0 <= x < pre.n() ==> post.denot(x) == pre.denot(x),
    {
        let m = pre.n();
        assert forall|x: int| post.valid(x) implies #[trigger] post.wf_at(x) by {
            if x < m {
                assert(pre.node_eq_at(post, x));
                assert(pre.wf_at(x));
                assert forall|j: int| 0 <= j < post.deps(x).len() implies {
                    &&& 0 <= #[trigger] post.dep_at(x, j) < x
                    &&& !post.is_watch(post.dep_at(x, j))
                    &&& (post.alive(x) ==> post.alive(post.dep_at(x, j)))
                } by {
                    assert(pre.dep_at(x, j) == post.dep_at(x, j));
                    assert(pre.node_eq_at(post, pre.dep_at(x, j)));
                }
                assert forall|k: int| 0 <= k < post.subs(x).len() implies {
                    &&& x < #[trigger] post.sub_at(x, k) < post.n()
                    &&& !post.is_cell(post.sub_at(x, k))
                } by {
                    assert(pre.sub_at(x, k) == post.sub_at(x, k));
                    assert(pre.node_eq_at(post, pre.sub_at(x, k)));
                }
            } else {
                if post.is_derived(x) {
                } else {
                    assert(post.deps(x) =~= Seq::<usize>::empty());
                }
            }
        }
        assert forall|x: int| post.valid(x) implies #[trigger] post.coh_at(x, Set::empty()) by {
            if x < m {
                assert(pre.node_eq_at(post, x));
                assert(pre.wf_at(x));
                assert(pre.coh_at(x, Set::empty()));
                if post.alive(x) && post.is_derived(x) && !post.stale(x) {
                    assert forall|j: int| 0 <= j < post.deps(x).len() implies #[trigger] post.dep_live(x, j) by {
                        assert(pre.dep_live(x, j));
                        assert(pre.node_eq_at(post, pre.dep_at(x, j)));
                    }
                    assert(pre.node_ok(x));
                    assert forall|j: int| 0 <= j < post.deps(x).len() implies post.fresh(#[trigger] post.dep_at(x, j)) by {
                        assert(pre.node_eq_at(post, pre.dep_at(x, j)));
                    }
                    assert forall|j: int| 0 <= j < post.deps(x).len() implies post.current(#[trigger] post.dep_at(x, j)) == pre.current(pre.dep_at(x, j)) by {
                        assert(pre.node_eq_at(post, pre.dep_at(x, j)));
                    }
                    assert(post.curr_dep_vals(x) =~= pre.curr_dep_vals(x));
                    assert(post.node_ok(x));
                }
            }
        }
        assert forall|x: int| 0 <= x < m implies post.denot(x) == pre.denot(x) by {
            assert forall|y: int| 0 <= y < m implies pre.core_eq_at(post, y) by {
                assert(pre.node_eq_at(post, y));
            }
            pre.lemma_denot_local(post, m, x);
        }
    }

    /// Adds a new source cell holding `v` and returns its index.
    pub(crate) fn new_cell(&mut self, v: V) -> (i: usize)
        requires
            old(self).wf(),
            old(self).coh(),
        ensures
            final(self).wf(),
            final(self).coh(),
            final(self).n() == old(self).n() + 1,
            i as int == old(self).n(),
            final(self).alive(i as int),
            final(self).pinned(i as int),
            final(self).is_cell(i as int),
            final(self).value(i as int) == v,
            final(self).subs(i as int) =~= Seq::<usize>::empty(),
            forall|x: int| 0 <= x < old(self).n() ==> #[trigger] old(self).node_eq_at(*final(self), x),
            forall|x: int| 0 <= x < old(self).n() ==> final(self).denot(x) == old(self).denot(x),
    {
        let i = self.nodes.len();
        self.nodes.push(Node { alive: true, pinned: true, payload: Payload::Value { value: v }, subs: Vec::new() });
        proof {
            assert forall|x: int| 0 <= x < old(self).n() implies #[trigger] old(self).node_eq_at(*self, x) by {
                assert(self.nodes@[x] == old(self).nodes@[x]);
            }
            Self::lemma_append_preserves(*old(self), *self);
        }
        i
    }

    /// Adds a new derived node over the live, watch-free nodes listed in
    /// `ds`, recomputing through `f`.  The node starts stale with nothing
    /// memoized; it subscribes to its dependencies on its first read.
    pub(crate) fn new_derived(&mut self, ds: Vec<usize>, f: C) -> (i: usize)
        requires
            old(self).wf(),
            old(self).coh(),
            forall|j: int| #![trigger ds@[j]] 0 <= j < ds@.len() ==> {
                &&& old(self).valid(ds@[j] as int)
                &&& old(self).alive(ds@[j] as int)
                &&& !old(self).is_watch(ds@[j] as int)
            },
        ensures
            final(self).wf(),
            final(self).coh(),
            final(self).n() == old(self).n() + 1,
            i as int == old(self).n(),
            final(self).alive(i as int),
            final(self).pinned(i as int),
            final(self).is_derived(i as int),
            final(self).stale(i as int),
            final(self).cached(i as int) == None::<V>,
            final(self).op(i as int) == f,
            final(self).deps(i as int) == ds@,
            final(self).subs(i as int) =~= Seq::<usize>::empty(),
            final(self).recomputed(i as int) == 0,
            forall|x: int| 0 <= x < old(self).n() ==> #[trigger] old(self).node_eq_at(*final(self), x),
            forall|x: int| 0 <= x < old(self).n() ==> final(self).denot(x) == old(self).denot(x),
            final(self).denot(i as int)
                == f.spec_recompute(final(self).denot_deps(ds@, i as int)),
    {
        let i = self.nodes.len();
        self.nodes.push(Node {
            alive: true,
            pinned: true,
            payload: Payload::Compute { f, deps: ds, cached: None, stale: true },
            subs: Vec::new(),
        });
        self.recomputed = Ghost(self.recomputed@.insert(i as int, 0));
        proof {
            assert forall|x: int| 0 <= x < old(self).n() implies #[trigger] old(self).node_eq_at(*self, x) by {
                assert(self.nodes@[x] == old(self).nodes@[x]);
            }
            assert(self.recomputed(i as int) == 0);
            Self::lemma_append_preserves(*old(self), *self);
        }
        i
    }

    /// What an invalidation cascade may do to node `x`: nothing but marking
    /// it stale, firing it, or pruning uninterested entries from its
    /// subscriber list — and the subscriber list of a still-fresh derived
    /// node is not touched at all.
    pub open spec fn push_frame_at(pre: Self, post: Self, x: int) -> bool {
        &&& pre.core_eq_at(post, x)
        &&& pre.is_watch(x) == post.is_watch(x)
        &&& pre.alive(x) == post.alive(x)
        &&& pre.pinned(x) == post.pinned(x)
        &&& pre.keep(x) == post.keep(x)
        &&& pre.cached(x) == post.cached(x)
        &&& pre.recomputed(x) == post.recomputed(x)
        &&& (pre.stale(x) ==> post.stale(x))
        &&& (pre.fired(x) ==> post.fired(x))
        &&& (post.is_derived(x) && !post.stale(x) ==> post.subs(x) == pre.subs(x))
    }

    /// The frame of the push phase as a whole: per-node preservation, and
    /// subscriber lists at most lose entries, never an entry that is still
    /// interested (alive and either derived or a persistent watch).
    pub open spec fn push_frame(pre: Self, post: Self) -> bool {
        &&& post.n() == pre.n()
        &&& (forall|x: int| 0 <= x < pre.n() ==> #[trigger] Self::push_frame_at(pre, post, x))
        &&& (forall|x: int, e: usize|
            0 <= x < pre.n() && #[trigger] post.subs(x).contains(e) ==> pre.subs(x).contains(e))
        &&& (forall|x: int, e: usize|
            0 <= x < pre.n() && (e as int) < pre.n() && #[trigger] pre.subs(x).contains(e)
                && pre.alive(e as int) && (pre.is_derived(e as int) || (pre.is_watch(e as int)
                && pre.keep(e as int))) ==> post.subs(x).contains(e))
    }

    /// Whether a subscriber entry still asks to be notified: it names a live
    /// node that is either derived or a persistent watch.  A notification
    /// keeps exactly these entries and prunes the rest.
    pub open spec fn interested(self, e: usize) -> bool {
        &&& (e as int) < self.n()
        &&& self.alive(e as int)
        &&& (self.is_derived(e as int) || (self.is_watch(e as int) && self.keep(e as int)))
    }

    /// The order-preserving subsequence of still-interested entries: what a
    /// notification leaves of a subscriber list.
    pub open spec fn keep_interested(self, s: Seq<usize>) -> Seq<usize> {
        s.filter(|e: usize| self.interested(e))
    }

    /// Two graphs that agree on which listed entries are interested keep the
    /// same entries.
    pub proof fn lemma_keep_interested_agree(a: Self, b: Self, s: Seq<usize>)
        requires
            forall|m: int| 0 <= m < s.len() ==> a.interested(#[trigger] s[m]) == b.interested(s[m]),
        ensures
            a.keep_interested(s) == b.keep_interested(s),
        decreases s.len(),
    {
        reveal_with_fuel(Seq::<_>::filter, 2);
        if s.len() > 0 {
            Self::lemma_keep_interested_agree(a, b, s.drop_last());
            assert(s[s.len() - 1] == s.last());
        }
    }

    /// Every watch subscribed to a node that went from fresh to stale has
    /// fired: an invalidation reaches all registered watches of the nodes it
    /// marks.
    pub open spec fn woke_watchers(pre: Self, post: Self) -> bool {
        forall|x: int, l: usize|
            0 <= x < pre.n() && (l as int) < pre.n() && !pre.stale(x) && post.stale(x)
                && #[trigger] pre.subs(x).contains(l) && pre.is_watch(l as int) && pre.alive(l as int)
                ==> post.fired(l as int)
    }

    /// Node indices fit in a machine word.
    pub proof fn lemma_n_bound(self)
        ensures
            self.n() <= usize::MAX as int,
    {
        vstd::std_specs::vec::axiom_spec_len(&self.nodes);
    }

    /// A larger excuse set only weakens coherence.
    proof fn lemma_coh_exc_mono(self, ex1: Set<int>, ex2: Set<int>)
        requires
            self.coh_exc(ex1),
            ex1.subset_of(ex2),
        ensures
            self.coh_exc(ex2),
    {
        assert forall|i: int| self.valid(i) implies #[trigger] self.coh_at(i, ex2) by {
            assert(self.coh_at(i, ex1));
            if self.alive(i) && self.is_derived(i) && !self.stale(i) {
                if forall|j: int|
                    0 <= j < self.deps(i).len() ==> !ex2.contains(#[trigger] self.dep_at(i, j)) {
                    assert forall|j: int|
                        0 <= j < self.deps(i).len() implies !ex1.contains(
                        #[trigger] self.dep_at(i, j),
                    ) by {
                        assert(!ex2.contains(self.dep_at(i, j)));
                    }
                }
            }
        }
    }

    /// The push-phase frame composes.
    proof fn lemma_push_trans(a: Self, b: Self, c: Self)
        requires
            Self::push_frame(a, b),
            Self::push_frame(b, c),
        ensures
            Self::push_frame(a, c),
    {
        assert forall|x: int| 0 <= x < a.n() implies #[trigger] Self::push_frame_at(a, c, x) by {
            assert(Self::push_frame_at(a, b, x));
            assert(Self::push_frame_at(b, c, x));
        }
        assert forall|x: int, e: usize|
            0 <= x < a.n() && #[trigger] c.subs(x).contains(e) implies a.subs(x).contains(e) by {
            assert(b.subs(x).contains(e));
        }
        assert forall|x: int, e: usize|
            0 <= x < a.n() && (e as int) < a.n() && #[trigger] a.subs(x).contains(e) && a.alive(
                e as int,
            ) && (a.is_derived(e as int) || (a.is_watch(e as int) && a.keep(e as int))) implies c.subs(
            x,
        ).contains(e) by {
            assert(Self::push_frame_at(a, b, e as int));
            assert(b.subs(x).contains(e));
        }
    }

    /// Woken watches compose along the push-phase frame.
    proof fn lemma_woke_trans(a: Self, b: Self, c: Self)
        requires
            Self::push_frame(a, b),
            Self::push_frame(b, c),
            Self::woke_watchers(a, b),
            Self::woke_watchers(b, c),
        ensures
            Self::woke_watchers(a, c),
    {
        assert forall|x: int, l: usize|
            0 <= x < a.n() && (l as int) < a.n() && !a.stale(x) && c.stale(x)
                && #[trigger] a.subs(x).contains(l) && a.is_watch(l as int) && a.alive(l as int)
            implies c.fired(l as int) by {
            assert(Self::push_frame_at(a, b, x));
            assert(Self::push_frame_at(b, c, x));
            assert(Self::push_frame_at(a, b, l as int));
            assert(Self::push_frame_at(b, c, l as int));
            if b.stale(x) {
                assert(b.fired(l as int));
            } else {
                assert(c.is_derived(x));
                assert(b.is_derived(x));
                assert(b.subs(x) == a.subs(x));
                assert(b.subs(x).contains(l));
            }
        }
    }

    /// Changing one node in a way that keeps its kind, its edges and its
    /// liveness preserves structural well-formedness.
    proof fn lemma_patch_wf(pre: Self, post: Self, x: int)
        requires
            pre.wf(),
            post.n() == pre.n(),
            forall|y: int| 0 <= y < pre.n() && y != x ==> #[trigger] pre.node_eq_at(post, y),
            pre.is_cell(x) == post.is_cell(x),
            pre.is_derived(x) == post.is_derived(x),
            pre.is_watch(x) == post.is_watch(x),
            pre.deps(x) == post.deps(x),
            pre.subs(x) == post.subs(x),
            pre.alive(x) == post.alive(x),
        ensures
            post.wf(),
    {
        assert forall|i: int| post.valid(i) implies #[trigger] post.wf_at(i) by {
            assert(pre.wf_at(i));
            if i != x {
                assert(pre.node_eq_at(post, i));
            }
            assert(pre.deps(i) == post.deps(i));
            assert(pre.subs(i) == post.subs(i));
            assert forall|j: int| 0 <= j < post.deps(i).len() implies {
                &&& 0 <= #[trigger] post.dep_at(i, j) < i
                &&& !post.is_watch(post.dep_at(i, j))
                &&& (post.alive(i) ==> post.alive(post.dep_at(i, j)))
            } by {
                assert(pre.dep_at(i, j) == post.dep_at(i, j));
                let d = pre.dep_at(i, j);
                assert(0 <= d < i);
                if d != x {
                    assert(pre.node_eq_at(post, d));
                }
            }
            assert forall|k: int| 0 <= k < post.subs(i).len() implies {
                &&& i < #[trigger] post.sub_at(i, k) < post.n()
                &&& !post.is_cell(post.sub_at(i, k))
            } by {
                assert(pre.sub_at(i, k) == post.sub_at(i, k));
                let e = pre.sub_at(i, k);
                assert(i < e < pre.n());
                if e != x {
                    assert(pre.node_eq_at(post, e));
                }
            }
        }
    }

    /// Changing the stored data of one node — a cell's value, a derived
    /// node's stale flag, or a watch's fired flag — keeps the graph coherent
    /// once that node is added to the excuse set, provided the node imposes
    /// no fresh-derived obligations of its own afterwards.
    proof fn lemma_patch_coh(pre: Self, post: Self, x: int, ex: Set<int>)
        requires
            pre.wf(),
            pre.coh_exc(ex),
            post.n() == pre.n(),
            forall|y: int| 0 <= y < pre.n() && y != x ==> #[trigger] pre.node_eq_at(post, y),
            pre.is_cell(x) == post.is_cell(x),
            pre.is_derived(x) == post.is_derived(x),
            pre.is_watch(x) == post.is_watch(x),
            pre.deps(x) == post.deps(x),
            pre.subs(x) == post.subs(x),
            pre.alive(x) == post.alive(x),
            post.is_derived(x) ==> post.stale(x),
        ensures
            post.coh_exc(ex.insert(x)),
    {
        let ex1 = ex.insert(x);
        assert forall|i: int| post.valid(i) implies #[trigger] post.coh_at(i, ex1) by {
            assert(pre.coh_at(i, ex));
            if post.alive(i) && post.is_derived(i) && !post.stale(i) {
                assert(i != x);
                assert(pre.node_eq_at(post, i));
                assert(pre.wf_at(i));
                assert(pre.deps(i) == post.deps(i));
                assert(pre.alive(i) && pre.is_derived(i) && !pre.stale(i));
                assert forall|j: int| 0 <= j < post.deps(i).len() implies #[trigger] post.dep_live(i, j) by {
                    assert(pre.dep_live(i, j));
                    assert(pre.dep_at(i, j) == post.dep_at(i, j));
                    let d = pre.dep_at(i, j);
                    assert(0 <= d < i);
                    if d != x {
                        assert(pre.node_eq_at(post, d));
                    }
                }
                if forall|j: int|
                    0 <= j < post.deps(i).len() ==> !ex1.contains(#[trigger] post.dep_at(i, j)) {
                    assert forall|j: int|
                        0 <= j < pre.deps(i).len() implies !ex.contains(
                        #[trigger] pre.dep_at(i, j),
                    ) by {
                        assert(pre.dep_at(i, j) == post.dep_at(i, j));
                        assert(!ex1.contains(post.dep_at(i, j)));
                    }
                    assert(pre.node_ok(i));
                    assert forall|j: int|
                        0 <= j < post.deps(i).len() implies post.fresh(
                        #[trigger] post.dep_at(i, j),
                    ) && post.current(post.dep_at(i, j)) == pre.current(pre.dep_at(i, j)) by {
                        assert(pre.dep_at(i, j) == post.dep_at(i, j));
                        let d = pre.dep_at(i, j);
                        assert(0 <= d < i);
                        assert(!ex1.contains(post.dep_at(i, j)));
                        assert(d != x);
                        assert(pre.node_eq_at(post, d));
                        assert(pre.fresh(d));
                    }
                    assert(post.curr_dep_vals(i) =~= pre.curr_dep_vals(i));
                    assert(post.node_ok(i));
                }
            }
        }
    }

    /// Delivers one invalidation to node `e` and reports whether `e` is
    /// still interested in further notifications.  A dead node is not (its
    /// entry will be pruned); a derived node marks itself stale and passes
    /// the invalidation on to its own subscribers; a watch node fires and
    /// stays interested only if it is persistent.
    ///
    /// `ex` is the excuse set of the cascade in flight: the nodes whose
    /// change has not been fully propagated yet.
    fn wake_one(&mut self, e: usize, Ghost(ex): Ghost<Set<int>>) -> (interested: bool)
        requires
            old(self).wf(),
            old(self).coh_exc(ex),
            (e as int) < old(self).n(),
            !old(self).is_cell(e as int),
        ensures
            final(self).wf(),
            final(self).coh_exc(ex),
            Self::push_frame(*old(self), *final(self)),
            Self::woke_watchers(*old(self), *final(self)),
            forall|x: int| 0 <= x < e ==> #[trigger] old(self).node_eq_at(*final(self), x),
            interested == (old(self).alive(e as int) && (old(self).is_derived(e as int)
                || old(self).keep(e as int))),
            old(self).alive(e as int) && old(self).is_derived(e as int) ==> final(self).stale(
                e as int,
            ),
            old(self).alive(e as int) && old(self).is_watch(e as int) ==> final(self).fired(
                e as int,
            ),
            old(self).alive(e as int) && old(self).is_derived(e as int) ==> forall|l: usize|
                #[trigger] old(self).subs(e as int).contains(l) && (l as int) < old(self).n()
                    && old(self).is_watch(l as int) && old(self).alive(l as int)
                    ==> final(self).fired(l as int),
        decreases old(self).n() - e, 1int,
    {
        let ei = e;
        if !self.nodes[ei].alive {
            proof {
                assert forall|x: int| 0 <= x < old(self).n() implies #[trigger] Self::push_frame_at(
                    *old(self),
                    *self,
                    x,
                ) by {}
            }
            return false;
        }
        let mut is_watch_keep: bool = false;
        let mut is_derived_node: bool = false;
        match &mut self.nodes[ei].payload {
            Payload::Value { .. } => {
                proof {
                    assert(false);
                }
            },
            Payload::Compute { stale, .. } => {
                *stale = true;
                is_derived_node = true;
            },
            Payload::Watch { fired, keep } => {
                *fired = true;
                is_watch_keep = *keep;
            },
        }
        proof {
            assert forall|y: int| 0 <= y < old(self).n() && y != e implies #[trigger] old(
                self,
            ).node_eq_at(*self, y) by {
                assert(self.nodes@[y] == old(self).nodes@[y]);
            }
            Self::lemma_patch_wf(*old(self), *self, e as int);
            Self::lemma_patch_coh(*old(self), *self, e as int, ex);
            assert forall|x: int| 0 <= x < old(self).n() implies #[trigger] Self::push_frame_at(
                *old(self),
                *self,
                x,
            ) by {
                if x != e {
                    assert(old(self).node_eq_at(*self, x));
                }
            }
        }
        if is_derived_node {
            let ghost mid = *self;
            self.notify_from(e, Ghost(ex));
            proof {
                Self::lemma_push_trans(*old(self), mid, *self);
                assert forall|x: int| 0 <= x < e implies #[trigger] old(self).node_eq_at(
                    *self,
                    x,
                ) by {
                    assert(old(self).node_eq_at(mid, x));
                    assert(mid.node_eq_at(*self, x));
                }
                // every watch among e's old subscribers has fired, whether or
                // not e was stale before
                assert forall|l: usize|
                    #[trigger] old(self).subs(e as int).contains(l) && (l as int) < old(self).n()
                        && old(self).is_watch(l as int) && old(self).alive(l as int) implies self.fired(
                    l as int,
                ) by {
                    assert(mid.subs(e as int).contains(l));
                    assert(old(self).node_eq_at(mid, l as int));
                    assert(mid.alive(l as int) && mid.is_watch(l as int));
                }
                // a node that went stale either is e itself, whose watches
                // were all just notified, or went stale inside the cascade
                assert forall|x: int, l: usize|
                    0 <= x < old(self).n() && (l as int) < old(self).n() && !old(self).stale(x)
                        && self.stale(x) && #[trigger] old(self).subs(x).contains(l) && old(
                        self,
                    ).is_watch(l as int) && old(self).alive(l as int) implies self.fired(
                    l as int,
                ) by {
                    if x == e as int {
                        assert(self.fired(l as int));
                    } else {
                        assert(old(self).node_eq_at(mid, x));
                        assert(old(self).node_eq_at(mid, l as int));
                        assert(mid.subs(x).contains(l));
                        assert(Self::woke_watchers(mid, *self));
                    }
                }
                assert(Self::woke_watchers(*old(self), *self));
            }
            true
        } else {
            // a watch has no subscribers of its own (nothing propagates past
            // it), and since no dependency list may name a watch, the watch
            // needs no excuse either
            proof {
                assert(Self::woke_watchers(*old(self), *self));
                assert forall|i: int| self.valid(i) implies #[trigger] self.coh_at(i, ex) by {
                    assert(self.coh_at(i, ex.insert(e as int)));
                    assert(self.wf_at(i));
                    if self.alive(i) && self.is_derived(i) && !self.stale(i) {
                        if forall|jj: int|
                            0 <= jj < self.deps(i).len() ==> !ex.contains(
                                #[trigger] self.dep_at(i, jj),
                            ) {
                            assert forall|jj: int|
                                0 <= jj < self.deps(i).len() implies !ex.insert(
                                e as int,
                            ).contains(#[trigger] self.dep_at(i, jj)) by {
                                assert(!self.is_watch(self.dep_at(i, jj)));
                                assert(self.is_watch(e as int));
                                assert(!ex.contains(self.dep_at(i, jj)));
                            }
                            assert(self.node_ok(i));
                        }
                    }
                }
            }
            is_watch_keep
        }
    }

    /// Notifies every subscriber of node `j` that `j` has been invalidated
    /// (the push phase): each subscriber is woken in registration order, and
    /// the entries that report no further interest — dead subscribers, and
    /// one-shot watches that just fired — are removed for good.
    ///
    /// `j` itself must already carry its invalidation (a derived node is
    /// already marked stale) so that only its subscribers still owe one.
    fn notify_from(&mut self, j: usize, Ghost(ex): Ghost<Set<int>>)
        requires
            old(self).wf(),
            old(self).coh_exc(ex.insert(j as int)),
            (j as int) < old(self).n(),
            !old(self).is_watch(j as int),
            old(self).is_derived(j as int) ==> old(self).stale(j as int),
        ensures
            final(self).wf(),
            final(self).coh_exc(ex),
            Self::push_frame(*old(self), *final(self)),
            Self::woke_watchers(*old(self), *final(self)),
            forall|x: int| 0 <= x < j ==> #[trigger] old(self).node_eq_at(*final(self), x),
            old(self).core_eq_at(*final(self), j as int),
            final(self).alive(j as int) == old(self).alive(j as int),
            final(self).stale(j as int) == old(self).stale(j as int),
            final(self).cached(j as int) == old(self).cached(j as int),
            forall|k: int| 0 <= k < final(self).subs(j as int).len() ==> {
                &&& final(self).alive(#[trigger] final(self).sub_at(j as int, k))
                &&& (final(self).is_derived(final(self).sub_at(j as int, k)) || final(self).keep(
                    final(self).sub_at(j as int, k),
                ))
            },
            final(self).subs(j as int) == old(self).keep_interested(old(self).subs(j as int)),
            forall|l: usize| #[trigger] old(self).subs(j as int).contains(l) ==> {
                &&& (old(self).alive(l as int) && old(self).is_derived(l as int)
                    ==> final(self).stale(l as int))
                &&& (old(self).alive(l as int) && old(self).is_watch(l as int)
                    ==> final(self).fired(l as int))
            },
        decreases old(self).n() - j, 0int,
    {
        let ghost pre = *old(self);
        let ghost orig = pre.subs(j as int);
        let ghost exj = ex.insert(j as int);
        proof {
            assert(pre.wf_at(j as int));
            reveal_with_fuel(Seq::<_>::filter, 2);
            assert(orig.take(0).len() == 0);
            assert(pre.keep_interested(orig.take(0)) =~= Seq::<usize>::empty());
        }
        let mut kept: Vec<usize> = Vec::new();
        let mut k: usize = 0;
        while k < self.nodes[j].subs.len()
            invariant
                pre == *old(self),
                exj == ex.insert(j as int),
                pre.wf(),
                pre.coh_exc(exj),
                (j as int) < pre.n(),
                !pre.is_watch(j as int),
                pre.is_derived(j as int) ==> pre.stale(j as int),
                orig == pre.subs(j as int),
                orig.no_duplicates(),
                k <= orig.len(),
                self.wf(),
                self.coh_exc(exj),
                Self::push_frame(pre, *self),
                Self::woke_watchers(pre, *self),
                forall|x: int| 0 <= x <= j ==> #[trigger] pre.node_eq_at(*self, x),
                self.subs(j as int) == orig,
                forall|m: int| #![trigger orig[m]] 0 <= m < k ==> {
                    &&& (pre.alive(orig[m] as int) && pre.is_derived(orig[m] as int)
                        ==> self.stale(orig[m] as int))
                    &&& (pre.alive(orig[m] as int) && pre.is_watch(orig[m] as int) ==> self.fired(
                        orig[m] as int,
                    ))
                },
                kept@.no_duplicates(),
                kept@ == pre.keep_interested(orig.take(k as int)),
                forall|m: int| 0 <= m < kept@.len() ==> orig.take(k as int).contains(
                    #[trigger] kept@[m],
                ),
                forall|m: int| #![trigger kept@[m]] 0 <= m < kept@.len() ==> {
                    &&& pre.alive(kept@[m] as int)
                    &&& (pre.is_derived(kept@[m] as int) || (pre.is_watch(kept@[m] as int)
                        && pre.keep(kept@[m] as int)))
                },
                forall|m: int| #![trigger orig[m]] 0 <= m < k && pre.alive(orig[m] as int) && (
                pre.is_derived(orig[m] as int) || (pre.is_watch(orig[m] as int) && pre.keep(
                    orig[m] as int,
                ))) ==> kept@.contains(orig[m]),
            decreases orig.len() - k,
        {
            let e = self.nodes[j].subs[k];
            proof {
                assert(pre.wf_at(j as int));
                assert(pre.sub_at(j as int, k as int) == e as int);
                assert((j as int) < (e as int) && (e as int) < pre.n());
                assert(!pre.is_cell(e as int));
                assert(pre.node_eq_at(*self, j as int));
                assert(Self::push_frame_at(pre, *self, e as int));
                assert(!self.is_cell(e as int));
                assert(self.n() == old(self).n());
                assert((j as int) < (e as int));
            }
            let ghost before = *self;
            let interested = self.wake_one(e, Ghost(exj));
            proof {
                Self::lemma_push_trans(pre, before, *self);
                Self::lemma_woke_trans(pre, before, *self);
                assert forall|x: int| 0 <= x <= j implies #[trigger] pre.node_eq_at(*self, x) by {
                    assert(pre.node_eq_at(before, x));
                    assert(before.node_eq_at(*self, x));
                }
                assert(pre.node_eq_at(*self, j as int));
                assert(self.subs(j as int) == orig);
                // earlier entries stay woken
                assert forall|m: int| #![trigger orig[m]] 0 <= m < k + 1 implies {
                    &&& (pre.alive(orig[m] as int) && pre.is_derived(orig[m] as int)
                        ==> self.stale(orig[m] as int))
                    &&& (pre.alive(orig[m] as int) && pre.is_watch(orig[m] as int) ==> self.fired(
                        orig[m] as int,
                    ))
                } by {
                    assert(pre.wf_at(j as int));
                    assert(pre.sub_at(j as int, m) == orig[m] as int);
                    assert(0 <= (orig[m] as int) && (orig[m] as int) < pre.n());
                    if m < k {
                        assert(Self::push_frame_at(before, *self, orig[m] as int));
                    } else {
                        assert(Self::push_frame_at(pre, before, orig[m] as int));
                    }
                }
            }
            let ghost kept0 = kept@;
            if interested {
                proof {
                    // a duplicate would contradict the no-duplicates
                    // invariant of the original list
                    assert(orig[k as int] == e);
                    if kept@.contains(e) {
                        let m = choose|m: int| 0 <= m < kept@.len() && kept@[m] == e;
                        assert(orig.take(k as int).contains(e));
                        let m2 = choose|m2: int| 0 <= m2 < k && orig.take(k as int)[m2] == e;
                        assert(orig[m2] == orig[k as int]);
                        assert(false);
                    }
                }
                kept.push(e);
                proof {
                    assert(Self::push_frame_at(pre, before, e as int));
                    assert(!pre.is_cell(e as int));
                    assert(pre.alive(e as int) && (pre.is_derived(e as int) || (pre.is_watch(
                        e as int,
                    ) && pre.keep(e as int))));
                    assert forall|m: int| #![trigger kept@[m]] 0 <= m < kept@.len() implies {
                        &&& pre.alive(kept@[m] as int)
                        &&& (pre.is_derived(kept@[m] as int) || (pre.is_watch(kept@[m] as int)
                            && pre.keep(kept@[m] as int)))
                    } by {
                        if m == kept@.len() - 1 {
                            assert(kept@[m] == e);
                        } else {
                            assert(kept@[m] == kept0[m]);
                            assert(pre.alive(kept0[m] as int));
                            assert(pre.is_derived(kept0[m] as int) || (pre.is_watch(
                                kept0[m] as int,
                            ) && pre.keep(kept0[m] as int)));
                        }
                    }
                    assert forall|m: int| 0 <= m < kept@.len() implies orig.take(
                        (k + 1) as int,
                    ).contains(#[trigger] kept@[m]) by {
                        if m < kept@.len() - 1 {
                            assert(orig.take(k as int).contains(kept@[m]));
                            let m2 = choose|m2: int|
                                0 <= m2 < k && orig.take(k as int)[m2] == kept@[m];
                            assert(orig.take((k + 1) as int)[m2] == kept@[m]);
                        } else {
                            assert(orig.take((k + 1) as int)[k as int] == e);
                        }
                    }
                }
            } else {
                proof {
                    assert forall|m: int| 0 <= m < kept@.len() implies orig.take(
                        (k + 1) as int,
                    ).contains(#[trigger] kept@[m]) by {
                        assert(orig.take(k as int).contains(kept@[m]));
                        let m2 = choose|m2: int| 0 <= m2 < k && orig.take(k as int)[m2] == kept@[m];
                        assert(orig.take((k + 1) as int)[m2] == kept@[m]);
                    }
                }
            }
            proof {
                // the entry just processed is kept exactly when interested
                assert(Self::push_frame_at(pre, before, e as int));
                assert(pre.alive(e as int) == before.alive(e as int));
                assert(pre.interested(e) == interested);
                reveal_with_fuel(Seq::<_>::filter, 2);
                assert(orig.take((k + 1) as int).drop_last() =~= orig.take(k as int));
                assert(orig.take((k + 1) as int).last() == e);
                assert(orig.take((k + 1) as int).len() == k + 1);
                assert(kept@ == pre.keep_interested(orig.take((k + 1) as int)));
                assert forall|m: int|
                    #![trigger orig[m]]
                    0 <= m < k + 1 && pre.alive(orig[m] as int) && (pre.is_derived(orig[m] as int)
                        || (pre.is_watch(orig[m] as int) && pre.keep(orig[m] as int))) implies kept@.contains(
                    orig[m],
                ) by {
                    if m < k {
                        assert(kept0.contains(orig[m]));
                        let mi = choose|mi: int| 0 <= mi < kept0.len() && kept0[mi] == orig[m];
                        if interested {
                            assert(kept@[mi] == kept0[mi]);
                        }
                        assert(kept@.contains(orig[m]));
                    } else {
                        assert(orig[m] == e);
                        assert(interested);
                        assert(kept@.last() == e);
                    }
                }
            }
            k += 1;
        }
        let ghost mid = *self;
        self.nodes[j].subs = kept;
        proof {
            // everything but the subscriber list of j is untouched by the prune
            assert forall|y: int| 0 <= y < mid.n() && y != j implies #[trigger] mid.node_eq_at(
                *self,
                y,
            ) by {
                assert(self.nodes@[y] == mid.nodes@[y]);
            }
            assert(mid.core_eq_at(*self, j as int));
            assert(self.subs(j as int) == kept@);
            assert(orig.take(orig.len() as int) =~= orig);
            assert(self.subs(j as int) == pre.keep_interested(orig));
            assert(mid.subs(j as int) == orig);
            assert(k == orig.len());
            pre.lemma_n_bound();
            // every entry of the original subscriber list has been woken
            assert forall|m2: int| #![trigger orig[m2]] 0 <= m2 < orig.len() implies {
                &&& (pre.alive(orig[m2] as int) && pre.is_derived(orig[m2] as int) ==> mid.stale(
                    orig[m2] as int,
                ))
                &&& (pre.alive(orig[m2] as int) && pre.is_watch(orig[m2] as int) ==> mid.fired(
                    orig[m2] as int,
                ))
            } by {}
            assert(self.n() == mid.n());
            assert(mid.alive(j as int) == self.alive(j as int));
            assert(mid.pinned(j as int) == self.pinned(j as int));
            assert(mid.is_watch(j as int) == self.is_watch(j as int));
            assert(mid.stale(j as int) == self.stale(j as int));
            assert(mid.cached(j as int) == self.cached(j as int));
            assert(mid.fired(j as int) == self.fired(j as int));
            assert(mid.keep(j as int) == self.keep(j as int));
            assert(mid.recomputed(j as int) == self.recomputed(j as int));
            assert(mid.deps(j as int) == self.deps(j as int));
            // nodes strictly below j, and j's own payload, are exactly as at
            // entry
            assert forall|x: int| 0 <= x < j implies #[trigger] pre.node_eq_at(*self, x) by {
                assert(pre.node_eq_at(mid, x));
                assert(mid.node_eq_at(*self, x));
            }
            assert(pre.node_eq_at(mid, j as int));
            assert(pre.core_eq_at(*self, j as int));
            assert(self.alive(j as int) == pre.alive(j as int));
            assert(self.stale(j as int) == pre.stale(j as int));
            assert(self.cached(j as int) == pre.cached(j as int));
            // well-formedness: kept entries come from the original list
            assert forall|i: int| self.valid(i) implies #[trigger] self.wf_at(i) by {
                assert(mid.wf_at(i));
                if i != j {
                    assert(mid.node_eq_at(*self, i));
                    assert forall|jj: int| 0 <= jj < self.deps(i).len() implies {
                        &&& 0 <= #[trigger] self.dep_at(i, jj) < i
                        &&& !self.is_watch(self.dep_at(i, jj))
                        &&& (self.alive(i) ==> self.alive(self.dep_at(i, jj)))
                    } by {
                        assert(mid.dep_at(i, jj) == self.dep_at(i, jj));
                        let d = mid.dep_at(i, jj);
                        assert(0 <= d < i);
                        assert(mid.alive(i) ==> mid.alive(d));
                        assert(!mid.is_watch(d));
                        if d != j {
                            assert(mid.node_eq_at(*self, d));
                        } else {
                            assert(mid.alive(d) == self.alive(d));
                            assert(mid.is_watch(d) == self.is_watch(d));
                        }
                    }
                    assert forall|kk: int| 0 <= kk < self.subs(i).len() implies {
                        &&& i < #[trigger] self.sub_at(i, kk) < self.n()
                        &&& !self.is_cell(self.sub_at(i, kk))
                    } by {
                        assert(mid.sub_at(i, kk) == self.sub_at(i, kk));
                        let s = mid.sub_at(i, kk);
                        assert(i < s < mid.n());
                        if s != j {
                            assert(mid.node_eq_at(*self, s));
                        }
                    }
                } else {
                    assert forall|jj: int| 0 <= jj < self.deps(i).len() implies {
                        &&& 0 <= #[trigger] self.dep_at(i, jj) < i
                        &&& !self.is_watch(self.dep_at(i, jj))
                        &&& (self.alive(i) ==> self.alive(self.dep_at(i, jj)))
                    } by {
                        assert(mid.dep_at(i, jj) == self.dep_at(i, jj));
                        let d = mid.dep_at(i, jj);
                        assert(0 <= d < i);
                        assert(mid.node_eq_at(*self, d));
                    }
                    assert forall|kk: int| 0 <= kk < self.subs(i).len() implies {
                        &&& i < #[trigger] self.sub_at(i, kk) < self.n()
                        &&& !self.is_cell(self.sub_at(i, kk))
                    } by {
                        let s = self.sub_at(i, kk);
                        assert(kept@[kk] == self.subs(i)[kk]);
                        assert(orig.take(orig.len() as int) =~= orig);
                        assert(orig.contains(kept@[kk]));
                        let m2 = choose|m2: int| 0 <= m2 < orig.len() && orig[m2] == kept@[kk];
                        assert(pre.wf_at(j as int));
                        assert(pre.sub_at(j as int, m2) == s);
                        assert(j < s < pre.n());
                        assert(mid.node_eq_at(*self, s));
                        assert(Self::push_frame_at(pre, mid, s));
                    }
                }
            }
            // the pruned list keeps every entry a fresh dependant relies on,
            // so coherence with excuse j still holds, and since every old
            // subscriber has been woken, nothing fresh depends on j at all:
            // the excuse for j can be dropped.
            assert forall|i: int| self.valid(i) implies #[trigger] self.coh_at(i, ex) by {
                assert(mid.coh_at(i, exj));
                if i != j {
                    assert(mid.node_eq_at(*self, i));
                }
                if self.alive(i) && self.is_derived(i) && !self.stale(i) {
                    assert(mid.alive(i) && mid.is_derived(i) && !mid.stale(i));
                    assert(mid.wf_at(i));
                    assert forall|jj: int| 0 <= jj < self.deps(i).len() implies #[trigger] self.dep_live(
                        i,
                        jj,
                    ) by {
                        assert(mid.dep_live(i, jj));
                        assert(mid.dep_at(i, jj) == self.dep_at(i, jj));
                        let d = mid.dep_at(i, jj);
                        assert(0 <= d < i);
                        if d != j {
                            assert(mid.node_eq_at(*self, d));
                        } else {
                            // i is subscribed to j, was woken, and is a live
                            // derived node, so it would be stale: contradiction
                            assert(mid.subs(j as int).contains(i as usize));
                            assert(orig.contains(i as usize));
                            let m2 = choose|m2: int| 0 <= m2 < orig.len() && orig[m2] == i as usize;
                            assert(Self::push_frame_at(pre, mid, i));
                            assert(pre.alive(i) == mid.alive(i));
                            assert(pre.alive(i) && pre.is_derived(i));
                            assert(orig[m2] as int == i);
                            assert(mid.stale(i));
                            assert(false);
                        }
                    }
                    if forall|jj: int|
                        0 <= jj < self.deps(i).len() ==> !ex.contains(#[trigger] self.dep_at(i, jj)) {
                        assert forall|jj: int|
                            0 <= jj < mid.deps(i).len() implies !exj.contains(
                            #[trigger] mid.dep_at(i, jj),
                        ) by {
                            assert(mid.dep_at(i, jj) == self.dep_at(i, jj));
                            assert(!ex.contains(self.dep_at(i, jj)));
                            let d = mid.dep_at(i, jj);
                            if d == j {
                                assert(mid.dep_live(i, jj));
                                assert(mid.subs(j as int).contains(i as usize));
                                assert(orig.contains(i as usize));
                                let m2 = choose|m2: int|
                                    0 <= m2 < orig.len() && orig[m2] == i as usize;
                                assert(Self::push_frame_at(pre, mid, i));
                                assert(pre.alive(i) == mid.alive(i));
                                assert(pre.alive(i) && pre.is_derived(i));
                                assert(orig[m2] as int == i);
                                assert(mid.stale(i));
                                assert(false);
                            }
                        }
                        assert(mid.node_ok(i));
                        assert forall|jj: int|
                            0 <= jj < self.deps(i).len() implies self.fresh(
                            #[trigger] self.dep_at(i, jj),
                        ) && self.current(self.dep_at(i, jj)) == mid.current(mid.dep_at(i, jj)) by {
                            assert(mid.dep_at(i, jj) == self.dep_at(i, jj));
                            let d = mid.dep_at(i, jj);
                            assert(0 <= d < i);
                            assert(mid.fresh(d));
                            if d != j {
                                assert(mid.node_eq_at(*self, d));
                            }
                        }
                        assert(self.curr_dep_vals(i) =~= mid.curr_dep_vals(i));
                        assert(self.node_ok(i));
                    }
                }
            }
            // frame of the prune
            assert forall|x: int| 0 <= x < mid.n() implies #[trigger] Self::push_frame_at(
                mid,
                *self,
                x,
            ) by {
                if x != j {
                    assert(mid.node_eq_at(*self, x));
                } else {
                    if self.is_derived(x) && !self.stale(x) {
                        assert(pre.is_derived(x) ==> pre.stale(x));
                        assert(Self::push_frame_at(pre, mid, x));
                        assert(false);
                    }
                }
            }
            assert forall|x: int, e2: usize|
                0 <= x < mid.n() && #[trigger] self.subs(x).contains(e2) implies mid.subs(
                x,
            ).contains(e2) by {
                if x == j {
                    assert(kept@.contains(e2));
                    let m = choose|m: int| 0 <= m < kept@.len() && kept@[m] == e2;
                    assert(orig.take(orig.len() as int) =~= orig);
                    assert(orig.contains(e2));
                } else {
                    assert(mid.node_eq_at(*self, x));
                }
            }
            assert forall|x: int, e2: usize|
                0 <= x < mid.n() && (e2 as int) < mid.n() && #[trigger] mid.subs(x).contains(e2)
                    && mid.alive(e2 as int) && (mid.is_derived(e2 as int) || (mid.is_watch(
                    e2 as int,
                ) && mid.keep(e2 as int))) implies self.subs(x).contains(e2) by {
                if x == j {
                    assert(orig.contains(e2));
                    let m2 = choose|m2: int| 0 <= m2 < orig.len() && orig[m2] == e2;
                    assert(Self::push_frame_at(pre, mid, e2 as int));
                    assert(pre.alive(e2 as int) && (pre.is_derived(e2 as int) || (pre.is_watch(
                        e2 as int,
                    ) && pre.keep(e2 as int))));
                    assert(kept@.contains(orig[m2]));
                } else {
                    assert(mid.node_eq_at(*self, x));
                }
            }
            Self::lemma_push_trans(pre, mid, *self);
            assert(Self::woke_watchers(mid, *self));
            Self::lemma_woke_trans(pre, mid, *self);
            // the pruned list holds interested entries only
            assert forall|kk: int| 0 <= kk < self.subs(j as int).len() implies {
                &&& self.alive(#[trigger] self.sub_at(j as int, kk))
                &&& (self.is_derived(self.sub_at(j as int, kk)) || self.keep(
                    self.sub_at(j as int, kk),
                ))
            } by {
                let s = self.sub_at(j as int, kk);
                assert(kept@[kk] == self.subs(j as int)[kk]);
                assert(orig.take(orig.len() as int) =~= orig);
                assert(orig.contains(kept@[kk]));
                let m2 = choose|m2: int| 0 <= m2 < orig.len() && orig[m2] == kept@[kk];
                assert(pre.wf_at(j as int));
                assert(pre.sub_at(j as int, m2) == s);
                assert((j as int) < s && s < pre.n());
                assert(pre.alive(s) && (pre.is_derived(s) || (pre.is_watch(s) && pre.keep(s))));
                assert(Self::push_frame_at(pre, mid, s));
                assert(mid.node_eq_at(*self, s));
            }
            // all original subscribers got woken
            assert forall|l: usize| #[trigger] orig.contains(l) implies {
                &&& (pre.alive(l as int) && pre.is_derived(l as int) ==> self.stale(l as int))
                &&& (pre.alive(l as int) && pre.is_watch(l as int) ==> self.fired(l as int))
            } by {
                let m2 = choose|m2: int| 0 <= m2 < orig.len() && orig[m2] == l;
                assert(pre.wf_at(j as int));
                assert(0 <= pre.sub_at(j as int, m2) < pre.n());
                assert(mid.node_eq_at(*self, l as int));
            }
        }
    }

    /// What a read (the pull phase) may do to node `x`: clear its stale
    /// flag, fill its memo, recompute it at most once — and a node that was
    /// already fresh is not recomputed at all.
    pub open spec fn pull_frame_at(pre: Self, post: Self, x: int) -> bool {
        &&& pre.core_eq_at(post, x)
        &&& pre.is_watch(x) == post.is_watch(x)
        &&& pre.alive(x) == post.alive(x)
        &&& pre.pinned(x) == post.pinned(x)
        &&& pre.keep(x) == post.keep(x)
        &&& pre.fired(x) == post.fired(x)
        &&& (post.stale(x) ==> pre.stale(x))
        &&& (!pre.stale(x) ==> post.cached(x) == pre.cached(x) && post.recomputed(x)
            == pre.recomputed(x) && !post.stale(x))
        &&& pre.recomputed(x) <= post.recomputed(x) <= pre.recomputed(x) + 1
        &&& (post.recomputed(x) != pre.recomputed(x) ==> !post.stale(x))
    }

    /// The frame of the pull phase as a whole: per-node preservation,
    /// subscriber lists only grow — and only with the registrations of the
    /// nodes the read actually recomputed, each on its own dependencies —
    /// and no denotation moves.
    pub open spec fn pull_frame(pre: Self, post: Self) -> bool {
        &&& post.n() == pre.n()
        &&& (forall|x: int| 0 <= x < pre.n() ==> #[trigger] Self::pull_frame_at(pre, post, x))
        &&& (forall|x: int, e: usize|
            0 <= x < pre.n() && #[trigger] pre.subs(x).contains(e) ==> post.subs(x).contains(e))
        &&& (forall|x: int, e: usize|
            0 <= x < pre.n() && (e as int) < pre.n() && #[trigger] post.subs(x).contains(e)
                && !pre.subs(x).contains(e) ==> pre.stale(e as int) && post.deps(
                e as int,
            ).contains(x as usize))
        &&& (forall|x: int| 0 <= x < pre.n() ==> #[trigger] post.denot(x) == pre.denot(x))
    }

    /// The pull-phase frame composes: in particular, a node recomputed in
    /// the first read is fresh afterwards, so the second read leaves it
    /// alone, and no node is ever recomputed twice by one read.
    proof fn lemma_pull_trans(a: Self, b: Self, c: Self)
        requires
            Self::pull_frame(a, b),
            Self::pull_frame(b, c),
        ensures
            Self::pull_frame(a, c),
    {
        assert forall|x: int| 0 <= x < a.n() implies #[trigger] Self::pull_frame_at(a, c, x) by {
            assert(Self::pull_frame_at(a, b, x));
            assert(Self::pull_frame_at(b, c, x));
        }
        assert forall|x: int, e: usize|
            0 <= x < a.n() && #[trigger] a.subs(x).contains(e) implies c.subs(x).contains(e) by {
            assert(b.subs(x).contains(e));
        }
        assert forall|x: int, e: usize|
            0 <= x < a.n() && (e as int) < a.n() && #[trigger] c.subs(x).contains(e) && !a.subs(
                x,
            ).contains(e) implies a.stale(e as int) && c.deps(e as int).contains(x as usize) by {
            assert(Self::pull_frame_at(a, b, e as int));
            assert(Self::pull_frame_at(b, c, e as int));
            if b.subs(x).contains(e) {
                assert(a.stale(e as int) && b.deps(e as int).contains(x as usize));
                assert(a.is_derived(e as int));
                assert(b.is_derived(e as int));
                assert(b.deps(e as int) == c.deps(e as int));
            } else {
                assert(b.stale(e as int) && c.deps(e as int).contains(x as usize));
                assert(a.stale(e as int));
            }
        }
        assert forall|x: int| 0 <= x < a.n() implies #[trigger] c.denot(x) == a.denot(x) by {
            assert(b.denot(x) == a.denot(x));
            assert(c.denot(x) == b.denot(x));
        }
    }

    /// The point of memoization: in a coherent graph, the stored value of a
    /// fresh node is exactly its denotation, the value a recomputation from
    /// scratch would produce.
    pub proof fn lemma_fresh_current(self, i: int)
        requires
            self.wf(),
            self.coh(),
            self.valid(i),
            self.alive(i),
            !self.is_watch(i),
            self.fresh(i),
        ensures
            self.current(i) == self.denot(i),
        decreases i,
    {
        if self.is_cell(i) {
        } else {
            assert(self.coh_at(i, Set::empty()));
            assert(self.wf_at(i));
            assert forall|j: int|
                0 <= j < self.deps(i).len() implies !Set::<int>::empty().contains(
                #[trigger] self.dep_at(i, j),
            ) by {}
            assert(self.node_ok(i));
            self.lemma_denot_deps_len(self.deps(i), i);
            assert forall|j: int|
                0 <= j < self.deps(i).len() implies #[trigger] self.curr_dep_vals(i)[j]
                == self.denot_deps(self.deps(i), i)[j] by {
                assert(self.dep_live(i, j));
                let d = self.dep_at(i, j);
                assert(0 <= d < i);
                assert(!self.is_watch(d));
                assert(self.fresh(d));
                self.lemma_fresh_current(d);
                self.lemma_denot_deps_index(self.deps(i), i, j);
            }
            assert(self.curr_dep_vals(i) =~= self.denot_deps(self.deps(i), i));
        }
    }

    /// Registers `i` as a subscriber of `d`, unless it already is one:
    /// subscriber lists are deduplicated by handle identity, so reading the
    /// same dependency twice leaves a single registration.
    fn subscribe(&mut self, d: usize, i: usize)
        requires
            old(self).wf(),
            old(self).coh(),
            (d as int) < (i as int),
            (i as int) < old(self).n(),
            !old(self).is_cell(i as int),
            !old(self).is_watch(d as int),
        ensures
            final(self).wf(),
            final(self).coh(),
            final(self).n() == old(self).n(),
            forall|x: int| 0 <= x < old(self).n() && x != d ==> #[trigger] old(self).node_eq_at(
                *final(self),
                x,
            ),
            old(self).core_eq_at(*final(self), d as int),
            final(self).alive(d as int) == old(self).alive(d as int),
            final(self).pinned(d as int) == old(self).pinned(d as int),
            final(self).is_watch(d as int) == old(self).is_watch(d as int),
            final(self).stale(d as int) == old(self).stale(d as int),
            final(self).cached(d as int) == old(self).cached(d as int),
            final(self).fired(d as int) == old(self).fired(d as int),
            final(self).keep(d as int) == old(self).keep(d as int),
            final(self).recomputed(d as int) == old(self).recomputed(d as int),
            final(self).subs(d as int).contains(i),
            old(self).subs(d as int).contains(i) ==> final(self).subs(d as int) == old(self).subs(
                d as int,
            ),
            !old(self).subs(d as int).contains(i) ==> final(self).subs(d as int) == old(self).subs(
                d as int,
            ).push(i),
            forall|x: int, e: usize|
                0 <= x < old(self).n() && #[trigger] old(self).subs(x).contains(e)
                    ==> final(self).subs(x).contains(e),
            forall|x: int|
                0 <= x < old(self).n() ==> #[trigger] final(self).denot(x) == old(self).denot(x),
    {
        let ghost pre = *old(self);
        let ghost orig = pre.subs(d as int);
        let mut found = false;
        let mut k: usize = 0;
        let n_subs = self.nodes[d].subs.len();
        while k < n_subs
            invariant
                *self == pre,
                n_subs == orig.len(),
                orig == pre.subs(d as int),
                (d as int) < pre.n(),
                k <= orig.len(),
                found == orig.take(k as int).contains(i),
            decreases orig.len() - k,
        {
            let same = self.nodes[d].subs[k] == i;
            if same {
                found = true;
                proof {
                    assert(orig.take((k + 1) as int)[k as int] == i);
                }
            }
            proof {
                if orig.take(k as int).contains(i) {
                    let m = choose|m: int| 0 <= m < k && orig.take(k as int)[m] == i;
                    assert(orig.take((k + 1) as int)[m] == i);
                }
                if !found {
                    assert forall|m: int| 0 <= m < k + 1 implies #[trigger] orig.take(
                        (k + 1) as int,
                    )[m] != i by {
                        if m < k {
                            assert(orig.take(k as int)[m] == orig.take((k + 1) as int)[m]);
                            if orig.take((k + 1) as int)[m] == i {
                                assert(orig.take(k as int).contains(i));
                            }
                        } else {
                            assert(orig.take((k + 1) as int)[m] == orig[k as int]);
                        }
                    }
                    if orig.take((k + 1) as int).contains(i) {
                        let m = choose|m: int|
                            0 <= m < k + 1 && #[trigger] orig.take((k + 1) as int)[m] == i;
                        assert(false);
                    }
                }
            }
            k += 1;
        }
        proof {
            assert(orig.take(orig.len() as int) =~= orig);
        }
        if !found {
            self.nodes[d].subs.push(i);
            proof {
                assert forall|y: int| 0 <= y < pre.n() && y != d implies #[trigger] pre.node_eq_at(
                    *self,
                    y,
                ) by {
                    assert(self.nodes@[y] == pre.nodes@[y]);
                }
                assert(self.subs(d as int) == orig.push(i));
                assert(self.subs(d as int)[orig.len() as int] == i);
                assert(self.subs(d as int).contains(i));
                // well-formedness: the one new entry is in range, not a cell,
                // and not a duplicate
                assert forall|x: int| self.valid(x) implies #[trigger] self.wf_at(x) by {
                    assert(pre.wf_at(x));
                    if x != d {
                        assert(pre.node_eq_at(*self, x));
                        assert forall|jj: int| 0 <= jj < self.deps(x).len() implies {
                            &&& 0 <= #[trigger] self.dep_at(x, jj) < x
                            &&& !self.is_watch(self.dep_at(x, jj))
                            &&& (self.alive(x) ==> self.alive(self.dep_at(x, jj)))
                        } by {
                            assert(pre.dep_at(x, jj) == self.dep_at(x, jj));
                            let dd = pre.dep_at(x, jj);
                            assert(0 <= dd < x);
                            if dd != d as int {
                                assert(pre.node_eq_at(*self, dd));
                            }
                        }
                        assert forall|kk: int| 0 <= kk < self.subs(x).len() implies {
                            &&& x < #[trigger] self.sub_at(x, kk) < self.n()
                            &&& !self.is_cell(self.sub_at(x, kk))
                        } by {
                            assert(pre.sub_at(x, kk) == self.sub_at(x, kk));
                            let s = pre.sub_at(x, kk);
                            assert(x < s < pre.n());
                            if s != d as int {
                                assert(pre.node_eq_at(*self, s));
                            }
                        }
                    } else {
                        assert(self.deps(x) == pre.deps(x));
                        assert forall|jj: int| 0 <= jj < self.deps(x).len() implies {
                            &&& 0 <= #[trigger] self.dep_at(x, jj) < x
                            &&& !self.is_watch(self.dep_at(x, jj))
                            &&& (self.alive(x) ==> self.alive(self.dep_at(x, jj)))
                        } by {
                            assert(pre.dep_at(x, jj) == self.dep_at(x, jj));
                            let dd = pre.dep_at(x, jj);
                            assert(0 <= dd < x);
                            if dd != d as int {
                                assert(pre.node_eq_at(*self, dd));
                            }
                        }
                        assert forall|kk: int| 0 <= kk < self.subs(x).len() implies {
                            &&& x < #[trigger] self.sub_at(x, kk) < self.n()
                            &&& !self.is_cell(self.sub_at(x, kk))
                        } by {
                            if kk < orig.len() {
                                assert(self.sub_at(x, kk) == pre.sub_at(x, kk));
                                let s = pre.sub_at(x, kk);
                                assert(x < s < pre.n());
                                if s != d as int {
                                    assert(pre.node_eq_at(*self, s));
                                }
                            } else {
                                assert(self.subs(x)[kk] == i);
                                if (i as int) != d as int {
                                    assert(pre.node_eq_at(*self, i as int));
                                }
                            }
                        }
                        assert forall|a: int, b: int|
                            0 <= a < b < self.subs(x).len() implies self.subs(x)[a] != self.subs(
                            x,
                        )[b] by {
                            if b < orig.len() {
                                assert(orig.no_duplicates());
                            } else {
                                assert(self.subs(x)[b] == i);
                                if self.subs(x)[a] == i {
                                    assert(orig[a] == i);
                                    assert(orig.take(orig.len() as int).contains(i));
                                    assert(false);
                                }
                            }
                        }
                        assert(self.subs(x).no_duplicates());
                    }
                }
                // coherence: subscriber lists only grew
                assert forall|x: int| self.valid(x) implies #[trigger] self.coh_at(
                    x,
                    Set::empty(),
                ) by {
                    assert(pre.coh_at(x, Set::empty()));
                    assert(pre.wf_at(x));
                    if x != d {
                        assert(pre.node_eq_at(*self, x));
                    }
                    if self.alive(x) && self.is_derived(x) && !self.stale(x) {
                        assert(pre.alive(x) && pre.is_derived(x) && !pre.stale(x));
                        assert forall|jj: int|
                            0 <= jj < self.deps(x).len() implies #[trigger] self.dep_live(x, jj) by {
                            assert(pre.dep_live(x, jj));
                            assert(pre.dep_at(x, jj) == self.dep_at(x, jj));
                            let dd = pre.dep_at(x, jj);
                            assert(0 <= dd < x);
                            if dd != d as int {
                                assert(pre.node_eq_at(*self, dd));
                            } else {
                                assert(pre.subs(dd).contains(x as usize));
                                let m = choose|m: int|
                                    0 <= m < orig.len() && orig[m] == x as usize;
                                assert(self.subs(dd)[m] == x as usize);
                                assert(self.subs(dd).contains(x as usize));
                            }
                        }
                        assert(pre.node_ok(x));
                        assert forall|jj: int|
                            0 <= jj < self.deps(x).len() implies self.fresh(
                            #[trigger] self.dep_at(x, jj),
                        ) && self.current(self.dep_at(x, jj)) == pre.current(pre.dep_at(x, jj)) by {
                            assert(pre.dep_at(x, jj) == self.dep_at(x, jj));
                            let dd = pre.dep_at(x, jj);
                            assert(0 <= dd < x);
                            if dd != d as int {
                                assert(pre.node_eq_at(*self, dd));
                            } else {
                                assert(self.stale(dd) == pre.stale(dd));
                                assert(self.cached(dd) == pre.cached(dd));
                            }
                        }
                        assert(self.curr_dep_vals(x) =~= pre.curr_dep_vals(x));
                        assert(self.node_ok(x));
                    }
                }
                assert forall|x: int| 0 <= x < pre.n() implies #[trigger] self.denot(x)
                    == pre.denot(x) by {
                    assert forall|y: int| 0 <= y < pre.n() implies pre.core_eq_at(*self, y) by {
                        if y != d {
                            assert(pre.node_eq_at(*self, y));
                        }
                    }
                    pre.lemma_denot_local(*self, pre.n(), x);
                }
                assert forall|x: int, e: usize|
                    0 <= x < pre.n() && #[trigger] pre.subs(x).contains(e) implies self.subs(
                    x,
                ).contains(e) by {
                    if x == d as int {
                        let m = choose|m: int| 0 <= m < orig.len() && orig[m] == e;
                        assert(self.subs(x)[m] == e);
                    } else {
                        assert(pre.node_eq_at(*self, x));
                    }
                }
            }
        } else {
            proof {
                assert(self.subs(d as int).contains(i));
                assert forall|y: int| 0 <= y < pre.n() && y != d implies #[trigger] pre.node_eq_at(
                    *self,
                    y,
                ) by {}
                assert forall|x: int| 0 <= x < pre.n() implies #[trigger] self.denot(x)
                    == pre.denot(x) by {}
            }
        }
    }

    /// Reads node `i`, recomputing it first if it is stale (the pull phase):
    /// every dependency is read the same way and the node re-registers
    /// itself as their subscriber, so the next write to any of them reaches
    /// it again.  Returns the node's denotation — a read never returns an
    /// outdated value.
    ///
    /// A node that is already fresh is returned as is: the whole graph is
    /// left untouched, and in any case no node is recomputed more than once
    /// by one read.
    pub(crate) fn pull(&mut self, i: usize) -> (v: V)
        requires
            old(self).wf(),
            old(self).coh(),
            (i as int) < old(self).n(),
            old(self).alive(i as int),
            !old(self).is_watch(i as int),
        ensures
            final(self).wf(),
            final(self).coh(),
            Self::pull_frame(*old(self), *final(self)),
            v == old(self).denot(i as int),
            !final(self).stale(i as int),
            final(self).current(i as int) == v,
            old(self).stale(i as int) ==> final(self).recomputed(i as int) == old(self).recomputed(
                i as int,
            ) + 1,
            forall|x: int| (i as int) < x < old(self).n() ==> #[trigger] old(self).node_eq_at(
                *final(self),
                x,
            ),
            old(self).fresh(i as int) ==> *final(self) == *old(self),
        decreases i,
    {
        let ghost pre = *old(self);
        let mut cell_val: Option<V> = None;
        let mut fresh_val: Option<V> = None;
        match &self.nodes[i].payload {
            Payload::Value { value } => {
                cell_val = Some(*value);
            },
            Payload::Compute { cached, stale, .. } => {
                if !*stale {
                    proof {
                        assert(self.coh_at(i as int, Set::empty()));
                        assert forall|j: int|
                            0 <= j < self.deps(i as int).len() implies !Set::<int>::empty().contains(
                            #[trigger] self.dep_at(i as int, j),
                        ) by {}
                        assert(self.node_ok(i as int));
                    }
                    fresh_val = *cached;
                }
            },
            Payload::Watch { .. } => {
                proof {
                    assert(false);
                }
            },
        }
        if let Some(v) = cell_val {
            proof {
                assert forall|x: int| 0 <= x < pre.n() implies #[trigger] Self::pull_frame_at(
                    pre,
                    *self,
                    x,
                ) by {}
            }
            return v;
        }
        if let Some(v) = fresh_val {
            proof {
                assert forall|x: int| 0 <= x < pre.n() implies #[trigger] Self::pull_frame_at(
                    pre,
                    *self,
                    x,
                ) by {}
                self.lemma_fresh_current(i as int);
            }
            return v;
        }
        // the node is a stale derived node: read all dependencies (bringing
        // each of them up to date), re-register as their subscriber, then
        // recompute and memoize
        proof {
            assert(self.is_derived(i as int) && self.stale(i as int));
        }
        let ds: Vec<usize> = match &self.nodes[i].payload {
            Payload::Compute { deps, .. } => deps.clone(),
            _ => Vec::new(),
        };
        proof {
            assert forall|m: int| 0 <= m < ds@.len() implies ds@[m] == pre.deps(i as int)[m] by {}
            assert(ds@ =~= pre.deps(i as int));
            assert(pre.wf_at(i as int));
        }
        let mut vals: Vec<V> = Vec::new();
        let mut jj: usize = 0;
        while jj < ds.len()
            invariant
                pre == *old(self),
                pre.wf(),
                pre.coh(),
                (i as int) < pre.n(),
                pre.alive(i as int),
                pre.is_derived(i as int),
                pre.stale(i as int),
                ds@ == pre.deps(i as int),
                jj <= ds@.len(),
                self.wf(),
                self.coh(),
                Self::pull_frame(pre, *self),
                pre.node_eq_at(*self, i as int),
                forall|x: int| (i as int) < x < pre.n() ==> #[trigger] pre.node_eq_at(*self, x),
                vals@.len() == jj as int,
                forall|m: int| 0 <= m < jj ==> #[trigger] vals@[m] == pre.denot(ds@[m] as int),
                forall|m: int| #![trigger ds@[m]] 0 <= m < jj ==> {
                    &&& !self.stale(ds@[m] as int)
                    &&& self.subs(ds@[m] as int).contains(i)
                },
            decreases ds@.len() - jj,
        {
            let d = ds[jj];
            proof {
                assert(pre.wf_at(i as int));
                assert(pre.dep_at(i as int, jj as int) == d as int);
                assert(0 <= (d as int) && (d as int) < (i as int));
                assert(!pre.is_watch(d as int));
                assert(pre.alive(i as int) ==> pre.alive(d as int));
                assert(Self::pull_frame_at(pre, *self, d as int));
                assert(self.alive(d as int));
                assert(!self.is_watch(d as int));
            }
            let ghost snap0 = *self;
            let v = self.pull(d);
            vals.push(v);
            let ghost snap1 = *self;
            proof {
                Self::lemma_pull_trans(pre, snap0, snap1);
                assert(snap0.n() == pre.n());
                assert((d as int) < (i as int) && (i as int) < snap0.n());
                assert(snap0.node_eq_at(snap1, i as int));
                assert(pre.node_eq_at(snap1, i as int));
                assert(!self.is_cell(i as int));
                assert(Self::pull_frame_at(pre, snap1, d as int));
                assert(!self.is_watch(d as int));
            }
            self.subscribe(d, i);
            proof {
                // the subscription changes nothing a pull may not change
                assert forall|x: int| 0 <= x < snap1.n() implies #[trigger] Self::pull_frame_at(
                    snap1,
                    *self,
                    x,
                ) by {
                    if x != d as int {
                        assert(snap1.node_eq_at(*self, x));
                    }
                }
                // the one registration the subscription may add is the stale
                // node being recomputed, on its own dependency
                assert forall|x: int, e2: usize|
                    0 <= x < snap1.n() && (e2 as int) < snap1.n() && #[trigger] self.subs(
                        x,
                    ).contains(e2) && !snap1.subs(x).contains(e2) implies snap1.stale(e2 as int)
                    && self.deps(e2 as int).contains(x as usize) by {
                    if x != d as int {
                        assert(snap1.node_eq_at(*self, x));
                    } else {
                        if e2 != i {
                            assert(self.subs(d as int) == snap1.subs(d as int).push(i)
                                || self.subs(d as int) == snap1.subs(d as int));
                            if self.subs(d as int) == snap1.subs(d as int).push(i) {
                                let m = choose|m: int|
                                    0 <= m < self.subs(d as int).len() && self.subs(d as int)[m]
                                        == e2;
                                assert(snap1.subs(d as int)[m] == e2);
                            }
                            assert(false);
                        }
                        assert(pre.node_eq_at(snap1, i as int));
                        assert(snap1.stale(i as int));
                        assert(snap1.node_eq_at(*self, i as int));
                        assert(self.deps(i as int) == pre.deps(i as int));
                        assert(pre.dep_at(i as int, jj as int) == d as int);
                        assert(self.deps(i as int)[jj as int] == d);
                        assert(self.deps(i as int).contains(d));
                    }
                }
                assert(Self::pull_frame(snap1, *self));
                Self::lemma_pull_trans(pre, snap1, *self);
                assert forall|x: int| (i as int) <= x < pre.n() implies #[trigger] pre.node_eq_at(
                    *self,
                    x,
                ) by {
                    assert(pre.node_eq_at(snap0, x));
                    assert(snap0.node_eq_at(snap1, x));
                    assert(snap1.node_eq_at(*self, x));
                }
                assert(pre.node_eq_at(*self, i as int));
                // the value just read is the dependency's denotation
                assert(vals@[jj as int] == snap0.denot(d as int));
                assert(snap0.denot(d as int) == pre.denot(d as int));
                // earlier dependencies stay fresh and subscribed
                assert forall|m: int| #![trigger ds@[m]] 0 <= m < jj + 1 implies {
                    &&& !self.stale(ds@[m] as int)
                    &&& self.subs(ds@[m] as int).contains(i)
                } by {
                    assert(pre.dep_at(i as int, m) == ds@[m] as int);
                    assert(0 <= (ds@[m] as int) && (ds@[m] as int) < (i as int));
                    if m < jj {
                        assert(!snap0.stale(ds@[m] as int));
                        assert(snap0.subs(ds@[m] as int).contains(i));
                        assert(Self::pull_frame_at(snap0, snap1, ds@[m] as int));
                        assert(!snap1.stale(ds@[m] as int));
                        assert(snap1.subs(ds@[m] as int).contains(i));
                        assert(Self::pull_frame_at(snap1, *self, ds@[m] as int));
                    } else {
                        assert(!snap1.stale(d as int));
                        assert(Self::pull_frame_at(snap1, *self, d as int));
                    }
                }
            }
            jj += 1;
        }
        let r: V = match &self.nodes[i].payload {
            Payload::Compute { f, .. } => f.recompute(&vals),
            Payload::Value { value } => {
                proof {
                    assert(false);
                }
                *value
            },
            Payload::Watch { .. } => {
                proof {
                    assert(false);
                }
                vals[0]
            },
        };
        let ghost mid = *self;
        match &mut self.nodes[i].payload {
            Payload::Compute { cached, stale, .. } => {
                *cached = Some(r);
                *stale = false;
            },
            _ => {},
        }
        let ghost c0 = mid.recomputed(i as int);
        proof {
            mid.lemma_n_bound();
        }
        self.recomputed = Ghost(self.recomputed@.insert(i as int, c0 + 1));
        proof {
            assert forall|y: int| 0 <= y < mid.n() && y != i as int implies #[trigger] mid.node_eq_at(
                *self,
                y,
            ) by {
                assert(self.nodes@[y] == mid.nodes@[y]);
            }
            Self::lemma_patch_wf(mid, *self, i as int);
            assert(self.recomputed(i as int) == c0 + 1);
            assert(mid.op(i as int) == pre.op(i as int));
            assert(mid.deps(i as int) == pre.deps(i as int));
            assert(self.deps(i as int) == pre.deps(i as int));
            // the freshly memoized node satisfies coherence, and no fresh
            // node depended on the stale node, so everything else does too
            assert forall|x: int| self.valid(x) implies #[trigger] self.coh_at(x, Set::empty()) by {
                assert(mid.coh_at(x, Set::empty()));
                assert(mid.wf_at(x));
                if x == i as int {
                    assert(jj == ds@.len());
                    assert forall|m: int|
                        0 <= m < self.deps(x).len() implies #[trigger] self.dep_live(x, m) by {
                        assert(ds@[m] == self.deps(x)[m]);
                        assert(m < jj);
                        let dd = ds@[m] as int;
                        assert(pre.wf_at(x));
                        assert(pre.dep_at(x, m) == dd);
                        assert(0 <= dd && dd < x);
                        assert(!mid.stale(dd));
                        assert(mid.subs(dd).contains(i));
                        assert(mid.node_eq_at(*self, dd));
                        assert(Self::pull_frame_at(pre, mid, dd));
                        assert(pre.alive(dd));
                        assert(self.alive(dd));
                        assert(self.subs(dd).contains(i));
                    }
                    assert forall|m: int|
                        0 <= m < self.deps(x).len() implies self.fresh(
                        #[trigger] self.dep_at(x, m),
                    ) by {
                        assert(ds@[m] == self.deps(x)[m]);
                        assert(m < jj);
                        assert(!mid.stale(ds@[m] as int));
                        assert(pre.wf_at(x));
                        assert(pre.dep_at(x, m) == ds@[m] as int);
                        assert(0 <= (ds@[m] as int) && (ds@[m] as int) < x);
                        assert(mid.node_eq_at(*self, ds@[m] as int));
                    }
                    assert forall|m: int|
                        0 <= m < self.deps(x).len() implies #[trigger] self.curr_dep_vals(x)[m]
                        == vals@[m] by {
                        assert(ds@[m] == self.deps(x)[m]);
                        assert(m < jj);
                        let dd = ds@[m] as int;
                        assert(pre.wf_at(x));
                        assert(pre.dep_at(x, m) == dd);
                        assert(0 <= dd && dd < x);
                        assert(mid.node_eq_at(*self, dd));
                        assert(!mid.stale(dd));
                        assert(Self::pull_frame_at(pre, mid, dd));
                        assert(mid.alive(dd));
                        assert(!mid.is_watch(dd));
                        mid.lemma_fresh_current(dd);
                        assert(mid.current(dd) == mid.denot(dd));
                        assert(mid.denot(dd) == pre.denot(dd));
                        assert(self.current(dd) == mid.current(dd));
                        assert(vals@[m] == pre.denot(dd));
                    }
                    assert(self.curr_dep_vals(x) =~= vals@);
                    assert(self.cached(x) == Some(self.op(x).spec_recompute(vals@)));
                    assert(self.node_ok(x));
                } else {
                    assert(mid.node_eq_at(*self, x));
                    if self.alive(x) && self.is_derived(x) && !self.stale(x) {
                        assert(mid.alive(x) && mid.is_derived(x) && !mid.stale(x));
                        assert forall|m: int|
                            0 <= m < self.deps(x).len() implies #[trigger] self.dep_live(x, m) by {
                            assert(mid.dep_live(x, m));
                            assert(mid.dep_at(x, m) == self.dep_at(x, m));
                            let dd = mid.dep_at(x, m);
                            assert(0 <= dd < x);
                            if dd != i as int {
                                assert(mid.node_eq_at(*self, dd));
                            }
                        }
                        assert(mid.node_ok(x));
                        assert forall|m: int|
                            0 <= m < self.deps(x).len() implies self.fresh(
                            #[trigger] self.dep_at(x, m),
                        ) && self.current(self.dep_at(x, m)) == mid.current(mid.dep_at(x, m)) by {
                            assert(mid.dep_at(x, m) == self.dep_at(x, m));
                            let dd = mid.dep_at(x, m);
                            assert(0 <= dd < x);
                            assert(mid.fresh(dd));
                            // a fresh node never depends on a stale one, so
                            // dd cannot be the node just recomputed
                            assert(dd != i as int);
                            assert(mid.node_eq_at(*self, dd));
                        }
                        assert(self.curr_dep_vals(x) =~= mid.curr_dep_vals(x));
                        assert(self.node_ok(x));
                    }
                }
            }
            // the read returns the denotation
            pre.lemma_denot_deps_len(pre.deps(i as int), i as int);
            assert forall|m: int|
                0 <= m < vals@.len() implies #[trigger] vals@[m] == pre.denot_deps(
                pre.deps(i as int),
                i as int,
            )[m] by {
                assert(pre.dep_at(i as int, m) == ds@[m] as int);
                assert(0 <= (ds@[m] as int) && (ds@[m] as int) < (i as int));
                pre.lemma_denot_deps_index(pre.deps(i as int), i as int, m);
                assert(vals@[m] == pre.denot(ds@[m] as int));
            }
            assert(vals@ =~= pre.denot_deps(pre.deps(i as int), i as int));
            assert(r == pre.op(i as int).spec_recompute(vals@));
            assert(pre.denot(i as int) == pre.op(i as int).spec_recompute(
                pre.denot_deps(pre.deps(i as int), i as int),
            ));
            assert(r == pre.denot(i as int));
            // the pull frame holds end to end
            assert forall|x: int| 0 <= x < pre.n() implies #[trigger] Self::pull_frame_at(
                pre,
                *self,
                x,
            ) by {
                assert(Self::pull_frame_at(pre, mid, x));
                if x != i as int {
                    assert(mid.node_eq_at(*self, x));
                } else {
                    assert(pre.stale(x));
                    assert(pre.recomputed(x) == mid.recomputed(x));
                }
            }
            assert forall|x: int, e: usize|
                0 <= x < pre.n() && #[trigger] pre.subs(x).contains(e) implies self.subs(
                x,
            ).contains(e) by {
                assert(mid.subs(x).contains(e));
                if x != i as int {
                    assert(mid.node_eq_at(*self, x));
                } else {
                    assert(mid.subs(x) == self.subs(x));
                }
            }
            assert forall|x: int, e: usize|
                0 <= x < pre.n() && (e as int) < pre.n() && #[trigger] self.subs(x).contains(e)
                    && !pre.subs(x).contains(e) implies pre.stale(e as int) && self.deps(
                e as int,
            ).contains(x as usize) by {
                if x != i as int {
                    assert(mid.node_eq_at(*self, x));
                } else {
                    assert(mid.subs(x) == self.subs(x));
                }
                assert(mid.subs(x).contains(e));
                assert(pre.stale(e as int) && mid.deps(e as int).contains(x as usize));
                if (e as int) != i as int {
                    assert(mid.node_eq_at(*self, e as int));
                } else {
                    assert(mid.deps(e as int) == self.deps(e as int));
                }
            }
            assert(self.recomputed(i as int) == pre.recomputed(i as int) + 1);
            assert forall|x: int| 0 <= x < pre.n() implies #[trigger] self.denot(x) == pre.denot(
                x,
            ) by {
                assert(mid.denot(x) == pre.denot(x));
                assert forall|y: int| 0 <= y < mid.n() implies mid.core_eq_at(*self, y) by {
                    if y != i as int {
                        assert(mid.node_eq_at(*self, y));
                    }
                }
                mid.lemma_denot_local(*self, mid.n(), x);
            }
            assert forall|x: int| (i as int) < x < pre.n() implies #[trigger] pre.node_eq_at(
                *self,
                x,
            ) by {
                assert(pre.node_eq_at(mid, x));
                assert(mid.node_eq_at(*self, x));
            }
        }
        r
    }

    /// Writes `v` into cell `h` and then notifies all current subscribers in
    /// registration order (the push phase): every derived node reachable
    /// through live subscription edges is marked stale — nothing is
    /// recomputed yet — every watch on the way fires, and dead subscriber
    /// entries are pruned from the lists the notification passes through.
    pub(crate) fn set_cell(&mut self, h: usize, v: V)
        requires
            old(self).wf(),
            old(self).coh(),
            (h as int) < old(self).n(),
            old(self).alive(h as int),
            old(self).is_cell(h as int),
        ensures
            final(self).wf(),
            final(self).coh(),
            final(self).n() == old(self).n(),
            final(self).is_cell(h as int),
            final(self).value(h as int) == v,
            final(self).alive(h as int),
            final(self).pinned(h as int) == old(self).pinned(h as int),
            final(self).recomputed(h as int) == old(self).recomputed(h as int),
            forall|x: int| 0 <= x < old(self).n() && x != h as int ==> #[trigger] Self::push_frame_at(
                *old(self),
                *final(self),
                x,
            ),
            forall|x: int, e: usize|
                0 <= x < old(self).n() && #[trigger] final(self).subs(x).contains(e)
                    ==> old(self).subs(x).contains(e),
            forall|x: int, e: usize|
                0 <= x < old(self).n() && (e as int) < old(self).n()
                    && #[trigger] old(self).subs(x).contains(e) && old(self).alive(e as int)
                    && (old(self).is_derived(e as int) || (old(self).is_watch(e as int)
                    && old(self).keep(e as int))) ==> final(self).subs(x).contains(e),
            forall|k: int| 0 <= k < final(self).subs(h as int).len() ==> {
                &&& final(self).alive(#[trigger] final(self).sub_at(h as int, k))
                &&& (final(self).is_derived(final(self).sub_at(h as int, k)) || final(self).keep(
                    final(self).sub_at(h as int, k),
                ))
            },
            final(self).subs(h as int) == old(self).keep_interested(old(self).subs(h as int)),
            forall|l: usize| #[trigger] old(self).subs(h as int).contains(l) ==> {
                &&& (old(self).alive(l as int) && old(self).is_derived(l as int)
                    ==> final(self).stale(l as int))
                &&& (old(self).alive(l as int) && old(self).is_watch(l as int)
                    ==> final(self).fired(l as int))
            },
            Self::woke_watchers(*old(self), *final(self)),
    {
        let ghost pre = *old(self);
        match &mut self.nodes[h].payload {
            Payload::Value { value } => {
                *value = v;
            },
            _ => {
                proof {
                    assert(false);
                }
            },
        }
        let ghost mid = *self;
        proof {
            assert forall|y: int| 0 <= y < pre.n() && y != h as int implies #[trigger] pre.node_eq_at(
                mid,
                y,
            ) by {
                assert(self.nodes@[y] == pre.nodes@[y]);
            }
            Self::lemma_patch_wf(pre, mid, h as int);
            Self::lemma_patch_coh(pre, mid, h as int, Set::empty());
        }
        self.notify_from(h, Ghost(Set::empty()));
        proof {
            assert forall|x: int|
                0 <= x < pre.n() && x != h as int implies #[trigger] Self::push_frame_at(
                pre,
                *self,
                x,
            ) by {
                assert(pre.node_eq_at(mid, x));
                assert(Self::push_frame_at(mid, *self, x));
            }
            assert(mid.core_eq_at(*self, h as int));
            assert(mid.pinned(h as int) == pre.pinned(h as int));
            assert(mid.alive(h as int) == pre.alive(h as int));
            assert(mid.value(h as int) == v);
            assert(Self::push_frame_at(mid, *self, h as int));
            // the pruned list over the written graph is the pruned list over
            // the original one: a write moves no node's interest
            assert(mid.subs(h as int) == pre.subs(h as int));
            assert forall|m: int|
                0 <= m < pre.subs(h as int).len() implies mid.interested(
                #[trigger] pre.subs(h as int)[m],
            ) == pre.interested(pre.subs(h as int)[m]) by {
                let e = pre.subs(h as int)[m];
                if (e as int) != h as int {
                    if 0 <= (e as int) && (e as int) < pre.n() {
                        assert(pre.node_eq_at(mid, e as int));
                    }
                } else {
                    assert(pre.alive(e as int) == mid.alive(e as int));
                    assert(pre.is_derived(e as int) == mid.is_derived(e as int));
                    assert(pre.is_watch(e as int) == mid.is_watch(e as int));
                    assert(pre.keep(e as int) == mid.keep(e as int));
                }
            }
            Self::lemma_keep_interested_agree(mid, pre, pre.subs(h as int));
            assert(self.subs(h as int) == pre.keep_interested(pre.subs(h as int)));
            assert forall|x: int, e: usize|
                0 <= x < pre.n() && #[trigger] self.subs(x).contains(e) implies pre.subs(
                x,
            ).contains(e) by {
                assert(mid.subs(x).contains(e));
                if x != h as int {
                    assert(pre.node_eq_at(mid, x));
                }
            }
            assert forall|x: int, e: usize|
                0 <= x < pre.n() && (e as int) < pre.n() && #[trigger] pre.subs(x).contains(e)
                    && pre.alive(e as int) && (pre.is_derived(e as int) || (pre.is_watch(e as int)
                    && pre.keep(e as int))) implies self.subs(x).contains(e) by {
                if x != h as int {
                    assert(pre.node_eq_at(mid, x));
                }
                assert(mid.subs(x).contains(e));
                if (e as int) != h as int {
                    assert(pre.node_eq_at(mid, e as int));
                }
                assert(mid.alive(e as int) && (mid.is_derived(e as int) || (mid.is_watch(e as int)
                    && mid.keep(e as int))));
            }
            assert forall|l: usize| #[trigger] pre.subs(h as int).contains(l) implies {
                &&& (pre.alive(l as int) && pre.is_derived(l as int) ==> self.stale(l as int))
                &&& (pre.alive(l as int) && pre.is_watch(l as int) ==> self.fired(l as int))
            } by {
                assert(mid.subs(h as int).contains(l));
                assert(pre.wf_at(h as int));
                let m = choose|m: int| 0 <= m < pre.subs(h as int).len() && pre.subs(h as int)[m] == l;
                assert(pre.sub_at(h as int, m) == l as int);
                assert((h as int) < (l as int) && (l as int) < pre.n());
                assert(pre.node_eq_at(mid, l as int));
            }
            assert forall|x: int, l: usize|
                0 <= x < pre.n() && (l as int) < pre.n() && !pre.stale(x) && self.stale(x)
                    && #[trigger] pre.subs(x).contains(l) && pre.is_watch(l as int) && pre.alive(
                    l as int,
                ) implies self.fired(l as int) by {
                if x != h as int {
                    assert(pre.node_eq_at(mid, x));
                } else {
                    assert(!mid.stale(x));
                }
                if (l as int) != h as int {
                    assert(pre.node_eq_at(mid, l as int));
                }
                assert(mid.subs(x).contains(l));
                assert(Self::woke_watchers(mid, *self));
            }
        }
    }

    /// Replaces the value of cell `h` by the result of `f` applied to the
    /// current value, then notifies exactly as a plain write does.
    pub(crate) fn update_cell<F: Fn(V) -> V>(&mut self, h: usize, f: &F)
        requires
            old(self).wf(),
            old(self).coh(),
            (h as int) < old(self).n(),
            old(self).alive(h as int),
            old(self).is_cell(h as int),
            f.requires((old(self).value(h as int),)),
        ensures
            final(self).wf(),
            final(self).coh(),
            final(self).n() == old(self).n(),
            final(self).is_cell(h as int),
            final(self).alive(h as int),
            f.ensures((old(self).value(h as int),), final(self).value(h as int)),
            final(self).pinned(h as int) == old(self).pinned(h as int),
            final(self).recomputed(h as int) == old(self).recomputed(h as int),
            forall|x: int| 0 <= x < old(self).n() && x != h as int ==> #[trigger] Self::push_frame_at(
                *old(self),
                *final(self),
                x,
            ),
            forall|x: int, e: usize|
                0 <= x < old(self).n() && #[trigger] final(self).subs(x).contains(e)
                    ==> old(self).subs(x).contains(e),
            forall|x: int, e: usize|
                0 <= x < old(self).n() && (e as int) < old(self).n()
                    && #[trigger] old(self).subs(x).contains(e) && old(self).alive(e as int)
                    && (old(self).is_derived(e as int) || (old(self).is_watch(e as int)
                    && old(self).keep(e as int))) ==> final(self).subs(x).contains(e),
            forall|k: int| 0 <= k < final(self).subs(h as int).len() ==> {
                &&& final(self).alive(#[trigger] final(self).sub_at(h as int, k))
                &&& (final(self).is_derived(final(self).sub_at(h as int, k)) || final(self).keep(
                    final(self).sub_at(h as int, k),
                ))
            },
            final(self).subs(h as int) == old(self).keep_interested(old(self).subs(h as int)),
            forall|l: usize| #[trigger] old(self).subs(h as int).contains(l) ==> {
                &&& (old(self).alive(l as int) && old(self).is_derived(l as int)
                    ==> final(self).stale(l as int))
                &&& (old(self).alive(l as int) && old(self).is_watch(l as int)
                    ==> final(self).fired(l as int))
            },
            Self::woke_watchers(*old(self), *final(self)),
    {
        let cur: V = match &self.nodes[h].payload {
            Payload::Value { value } => *value,
            Payload::Compute { .. } => {
                proof {
                    assert(false);
                }
                return ;
            },
            Payload::Watch { .. } => {
                proof {
                    assert(false);
                }
                return ;
            },
        };
        let nv = f(cur);
        self.set_cell(h, nv);
    }

    /// Some live derived node lists `t` among its dependencies (and so still
    /// holds a share of it).
    pub open spec fn depended_on(self, t: usize) -> bool {
        exists|x: int|
            0 <= x < self.n() && self.alive(x) && self.is_derived(x) && #[trigger] self.deps(
                x,
            ).contains(t)
    }

    /// What releasing a handle may do to a node: clear its `pinned` or
    /// `alive` flag, nothing else — and a node that is pinned elsewhere
    /// stays exactly as it is.
    pub open spec fn drop_frame_at(pre: Self, post: Self, x: int) -> bool {
        &&& pre.core_eq_at(post, x)
        &&& pre.is_watch(x) == post.is_watch(x)
        &&& pre.stale(x) == post.stale(x)
        &&& pre.cached(x) == post.cached(x)
        &&& pre.fired(x) == post.fired(x)
        &&& pre.keep(x) == post.keep(x)
        &&& pre.subs(x) == post.subs(x)
        &&& pre.recomputed(x) == post.recomputed(x)
        &&& (post.alive(x) ==> pre.alive(x))
        &&& (post.pinned(x) ==> pre.pinned(x))
        &&& (pre.alive(x) && pre.pinned(x) ==> post.alive(x) && post.pinned(x))
    }

    pub open spec fn drop_frame(pre: Self, post: Self) -> bool {
        &&& post.n() == pre.n()
        &&& (forall|x: int| 0 <= x < pre.n() ==> #[trigger] Self::drop_frame_at(pre, post, x))
    }

    proof fn lemma_drop_trans(a: Self, b: Self, c: Self)
        requires
            Self::drop_frame(a, b),
            Self::drop_frame(b, c),
        ensures
            Self::drop_frame(a, c),
    {
        assert forall|x: int| 0 <= x < a.n() implies #[trigger] Self::drop_frame_at(a, c, x) by {
            assert(Self::drop_frame_at(a, b, x));
            assert(Self::drop_frame_at(b, c, x));
        }
    }

    /// Whether some live derived node depends on `t`.
    fn has_dependent(&self, t: usize) -> (r: bool)
        requires
            (t as int) < self.n(),
        ensures
            r == self.depended_on(t),
    {
        let mut x: usize = 0;
        let n = self.nodes.len();
        while x < n
            invariant
                n == self.n(),
                x <= n,
                (t as int) < self.n(),
                forall|y: int|
                    0 <= y < x ==> !(self.alive(y) && self.is_derived(y) && #[trigger] self.deps(
                        y,
                    ).contains(t)),
            decreases n - x,
        {
            if self.nodes[x].alive {
                let ds: Vec<usize> = match &self.nodes[x].payload {
                    Payload::Compute { deps, .. } => deps.clone(),
                    _ => Vec::new(),
                };
                proof {
                    if self.is_derived(x as int) {
                        assert forall|m: int| 0 <= m < ds@.len() implies ds@[m] == self.deps(
                            x as int,
                        )[m] by {}
                        assert(ds@ =~= self.deps(x as int));
                    } else {
                        assert(ds@ =~= self.deps(x as int));
                    }
                }
                let mut k: usize = 0;
                let dn = ds.len();
                while k < dn
                    invariant
                        dn == ds@.len(),
                        k <= dn,
                        ds@ == self.deps(x as int),
                        (x as int) < self.n(),
                        self.alive(x as int),
                        ds@.len() > 0 ==> self.is_derived(x as int),
                        forall|m: int| 0 <= m < k ==> #[trigger] ds@[m] != t,
                    decreases dn - k,
                {
                    if ds[k] == t {
                        proof {
                            assert(self.deps(x as int).contains(t));
                            assert(self.depended_on(t));
                        }
                        return true;
                    }
                    k += 1;
                }
                proof {
                    if self.deps(x as int).contains(t) {
                        let m = choose|m: int| 0 <= m < ds@.len() && #[trigger] ds@[m] == t;
                        assert(false);
                    }
                }
            }
            x += 1;
        }
        proof {
            if self.depended_on(t) {
                let y = choose|y: int|
                    0 <= y < self.n() && self.alive(y) && self.is_derived(y)
                        && #[trigger] self.deps(y).contains(t);
                assert(false);
            }
        }
        false
    }

    /// Reclaims node `t` if nothing holds it any more — it is unpinned and
    /// no live derived node lists it — and then releases the shares `t`
    /// itself held of its own dependencies, cascading downward.  Subscriber
    /// entries naming a reclaimed node are not touched here; they vanish at
    /// the next notification that passes them.
    fn collect(&mut self, t: usize)
        requires
            old(self).wf(),
            old(self).coh(),
            (t as int) < old(self).n(),
        ensures
            final(self).wf(),
            final(self).coh(),
            Self::drop_frame(*old(self), *final(self)),
            !old(self).alive(t as int) || (!old(self).pinned(t as int) && !old(self).depended_on(
                t,
            )) ==> !final(self).alive(t as int),
            old(self).is_watch(t as int) ==> forall|x: int|
                0 <= x < old(self).n() && x != t as int ==> #[trigger] old(self).node_eq_at(
                    *final(self),
                    x,
                ),
        decreases t,
    {
        let ghost pre = *old(self);
        if !self.nodes[t].alive || self.nodes[t].pinned {
            proof {
                assert forall|x: int| 0 <= x < pre.n() implies #[trigger] Self::drop_frame_at(
                    pre,
                    *self,
                    x,
                ) by {}
                assert forall|x: int| 0 <= x < pre.n() && x != t as int implies #[trigger] pre.node_eq_at(
                    *self,
                    x,
                ) by {}
            }
            return ;
        }
        if self.has_dependent(t) {
            proof {
                assert forall|x: int| 0 <= x < pre.n() implies #[trigger] Self::drop_frame_at(
                    pre,
                    *self,
                    x,
                ) by {}
                assert forall|x: int| 0 <= x < pre.n() && x != t as int implies #[trigger] pre.node_eq_at(
                    *self,
                    x,
                ) by {}
            }
            return ;
        }
        self.nodes[t].alive = false;
        let ghost mid = *self;
        proof {
            assert forall|y: int| 0 <= y < pre.n() && y != t as int implies #[trigger] pre.node_eq_at(
                mid,
                y,
            ) by {
                assert(self.nodes@[y] == pre.nodes@[y]);
            }
            // well-formedness: no live derived node had t among its
            // dependencies, so liveness of dependencies is preserved
            assert forall|i: int| mid.valid(i) implies #[trigger] mid.wf_at(i) by {
                assert(pre.wf_at(i));
                if i != t as int {
                    assert(pre.node_eq_at(mid, i));
                }
                assert(pre.deps(i) == mid.deps(i));
                assert(pre.subs(i) == mid.subs(i));
                assert forall|j: int| 0 <= j < mid.deps(i).len() implies {
                    &&& 0 <= #[trigger] mid.dep_at(i, j) < i
                    &&& !mid.is_watch(mid.dep_at(i, j))
                    &&& (mid.alive(i) ==> mid.alive(mid.dep_at(i, j)))
                } by {
                    assert(pre.dep_at(i, j) == mid.dep_at(i, j));
                    let d = pre.dep_at(i, j);
                    assert(0 <= d < i);
                    if d != t as int {
                        assert(pre.node_eq_at(mid, d));
                    } else {
                        if mid.alive(i) {
                            assert(pre.alive(i) && pre.is_derived(i));
                            assert(pre.deps(i).contains(t));
                            assert(pre.depended_on(t));
                            assert(false);
                        }
                    }
                }
                assert forall|k: int| 0 <= k < mid.subs(i).len() implies {
                    &&& i < #[trigger] mid.sub_at(i, k) < mid.n()
                    &&& !mid.is_cell(mid.sub_at(i, k))
                } by {
                    assert(pre.sub_at(i, k) == mid.sub_at(i, k));
                    let s = pre.sub_at(i, k);
                    assert(i < s < pre.n());
                    if s != t as int {
                        assert(pre.node_eq_at(mid, s));
                    }
                }
            }
            // coherence: obligations only concern live nodes, and no live
            // derived node depends on t
            assert forall|i: int| mid.valid(i) implies #[trigger] mid.coh_at(i, Set::empty()) by {
                assert(pre.coh_at(i, Set::empty()));
                assert(pre.wf_at(i));
                if i != t as int {
                    assert(pre.node_eq_at(mid, i));
                }
                if mid.alive(i) && mid.is_derived(i) && !mid.stale(i) {
                    assert(i != t as int);
                    assert(pre.alive(i) && pre.is_derived(i) && !pre.stale(i));
                    assert forall|j: int| 0 <= j < mid.deps(i).len() implies #[trigger] mid.dep_live(
                        i,
                        j,
                    ) by {
                        assert(pre.dep_live(i, j));
                        assert(pre.dep_at(i, j) == mid.dep_at(i, j));
                        let d = pre.dep_at(i, j);
                        assert(0 <= d < i);
                        if d == t as int {
                            assert(pre.deps(i).contains(t));
                            assert(pre.depended_on(t));
                            assert(false);
                        }
                        assert(pre.node_eq_at(mid, d));
                    }
                    assert forall|j: int|
                        0 <= j < pre.deps(i).len() implies !Set::<int>::empty().contains(
                        #[trigger] pre.dep_at(i, j),
                    ) by {}
                    assert(pre.node_ok(i));
                    assert forall|j: int|
                        0 <= j < mid.deps(i).len() implies mid.fresh(#[trigger] mid.dep_at(i, j))
                        && mid.current(mid.dep_at(i, j)) == pre.current(pre.dep_at(i, j)) by {
                        assert(pre.dep_at(i, j) == mid.dep_at(i, j));
                        let d = pre.dep_at(i, j);
                        assert(0 <= d < i);
                        if d != t as int {
                            assert(pre.node_eq_at(mid, d));
                        } else {
                            assert(pre.stale(d) == mid.stale(d));
                            assert(pre.cached(d) == mid.cached(d));
                        }
                    }
                    assert(mid.curr_dep_vals(i) =~= pre.curr_dep_vals(i));
                    assert(mid.node_ok(i));
                }
            }
            assert forall|x: int| 0 <= x < pre.n() implies #[trigger] Self::drop_frame_at(
                pre,
                mid,
                x,
            ) by {
                if x != t as int {
                    assert(pre.node_eq_at(mid, x));
                }
            }
        }
        // release the shares this node held of its dependencies
        let ds: Vec<usize> = match &self.nodes[t].payload {
            Payload::Compute { deps, .. } => deps.clone(),
            _ => Vec::new(),
        };
        proof {
            assert(pre.deps(t as int) == mid.deps(t as int));
            if mid.is_derived(t as int) {
                assert forall|m: int| 0 <= m < ds@.len() implies ds@[m] == mid.deps(t as int)[m] by {}
                assert(ds@ =~= mid.deps(t as int));
            } else {
                assert(ds@ =~= mid.deps(t as int)) by {
                    assert(ds@ =~= Seq::<usize>::empty());
                }
            }
            assert(pre.wf_at(t as int));
            assert forall|m: int|
                0 <= m < ds@.len() implies 0 <= (#[trigger] ds@[m] as int) && (ds@[m] as int) < (
            t as int) by {
                assert(pre.dep_at(t as int, m) == ds@[m] as int);
            }
        }
        let mut k: usize = 0;
        while k < ds.len()
            invariant
                mid.wf(),
                mid.coh(),
                Self::drop_frame(pre, mid),
                pre.n() == mid.n(),
                k <= ds@.len(),
                (t as int) < mid.n(),
                forall|m: int|
                    0 <= m < ds@.len() ==> 0 <= (#[trigger] ds@[m] as int) && (ds@[m] as int) < (
                    t as int),
                self.wf(),
                self.coh(),
                Self::drop_frame(mid, *self),
                ds@.len() == 0 ==> *self == mid,
            decreases ds@.len() - k,
        {
            let d = ds[k];
            let ghost snap = *self;
            self.collect(d);
            proof {
                Self::lemma_drop_trans(mid, snap, *self);
            }
            k += 1;
        }
        proof {
            Self::lemma_drop_trans(pre, mid, *self);
            assert(Self::drop_frame_at(mid, *self, t as int));
            assert(!self.alive(t as int));
            if pre.is_watch(t as int) {
                assert(ds@.len() == 0);
                assert forall|x: int|
                    0 <= x < pre.n() && x != t as int implies #[trigger] pre.node_eq_at(
                    *self,
                    x,
                ) by {
                    assert(pre.node_eq_at(mid, x));
                }
            }
        }
    }

    /// Releases the application's handle on node `h`: storage is reclaimed
    /// once nothing else — no live derived node — still holds the node, and
    /// reclaiming a derived node releases in turn the shares it held of its
    /// dependencies.
    pub(crate) fn release(&mut self, h: usize)
        requires
            old(self).wf(),
            old(self).coh(),
            (h as int) < old(self).n(),
            old(self).pinned(h as int),
        ensures
            final(self).wf(),
            final(self).coh(),
            final(self).n() == old(self).n(),
            !final(self).pinned(h as int),
            forall|x: int| 0 <= x < old(self).n() && x != h as int ==> #[trigger] Self::drop_frame_at(
                *old(self),
                *final(self),
                x,
            ),
            old(self).core_eq_at(*final(self), h as int),
            final(self).is_watch(h as int) == old(self).is_watch(h as int),
            final(self).stale(h as int) == old(self).stale(h as int),
            final(self).cached(h as int) == old(self).cached(h as int),
            final(self).subs(h as int) == old(self).subs(h as int),
            final(self).alive(h as int) ==> old(self).alive(h as int),
            !old(self).depended_on(h) ==> !final(self).alive(h as int),
            old(self).is_watch(h as int) ==> forall|x: int|
                0 <= x < old(self).n() && x != h as int ==> #[trigger] old(self).node_eq_at(
                    *final(self),
                    x,
                ),
    {
        let ghost pre = *old(self);
        self.nodes[h].pinned = false;
        let ghost mid = *self;
        proof {
            assert forall|y: int| 0 <= y < pre.n() && y != h as int implies #[trigger] pre.node_eq_at(
                mid,
                y,
            ) by {
                assert(self.nodes@[y] == pre.nodes@[y]);
            }
            Self::lemma_patch_wf(pre, mid, h as int);
            // pinning plays no role in coherence
            assert forall|i: int| mid.valid(i) implies #[trigger] mid.coh_at(i, Set::empty()) by {
                assert(pre.coh_at(i, Set::empty()));
                assert(pre.wf_at(i));
                if i != h as int {
                    assert(pre.node_eq_at(mid, i));
                }
                if mid.alive(i) && mid.is_derived(i) && !mid.stale(i) {
                    assert(pre.alive(i) && pre.is_derived(i) && !pre.stale(i));
                    assert forall|j: int| 0 <= j < mid.deps(i).len() implies #[trigger] mid.dep_live(
                        i,
                        j,
                    ) by {
                        assert(pre.dep_live(i, j));
                        assert(pre.dep_at(i, j) == mid.dep_at(i, j));
                        let d = pre.dep_at(i, j);
                        assert(0 <= d < i);
                        if d != h as int {
                            assert(pre.node_eq_at(mid, d));
                        } else {
                            assert(pre.alive(d) == mid.alive(d));
                            assert(pre.subs(d) == mid.subs(d));
                        }
                    }
                    assert forall|j: int|
                        0 <= j < pre.deps(i).len() implies !Set::<int>::empty().contains(
                        #[trigger] pre.dep_at(i, j),
                    ) by {}
                    assert(pre.node_ok(i));
                    assert forall|j: int|
                        0 <= j < mid.deps(i).len() implies mid.fresh(#[trigger] mid.dep_at(i, j))
                        && mid.current(mid.dep_at(i, j)) == pre.current(pre.dep_at(i, j)) by {
                        assert(pre.dep_at(i, j) == mid.dep_at(i, j));
                        let d = pre.dep_at(i, j);
                        assert(0 <= d < i);
                        if d != h as int {
                            assert(pre.node_eq_at(mid, d));
                        } else {
                            assert(pre.stale(d) == mid.stale(d));
                            assert(pre.cached(d) == mid.cached(d));
                        }
                    }
                    assert(mid.curr_dep_vals(i) =~= pre.curr_dep_vals(i));
                    assert(mid.node_ok(i));
                }
            }
        }
        proof {
            // unpinning moves no dependency edge, so what depends on h is
            // unchanged
            if pre.depended_on(h) {
                let x = choose|x: int|
                    0 <= x < pre.n() && pre.alive(x) && pre.is_derived(x) && #[trigger] pre.deps(
                        x,
                    ).contains(h);
                if x != h as int {
                    assert(pre.node_eq_at(mid, x));
                }
                assert(mid.deps(x).contains(h));
                assert(mid.depended_on(h));
            }
            if mid.depended_on(h) {
                let x = choose|x: int|
                    0 <= x < mid.n() && mid.alive(x) && mid.is_derived(x) && #[trigger] mid.deps(
                        x,
                    ).contains(h);
                if x != h as int {
                    assert(pre.node_eq_at(mid, x));
                }
                assert(pre.deps(x).contains(h));
                assert(pre.depended_on(h));
            }
            assert(mid.depended_on(h) == pre.depended_on(h));
        }
        self.collect(h);
        proof {
            assert forall|x: int|
                0 <= x < pre.n() && x != h as int implies #[trigger] Self::drop_frame_at(
                pre,
                *self,
                x,
            ) by {
                assert(pre.node_eq_at(mid, x));
                assert(Self::drop_frame_at(mid, *self, x));
            }
            assert(Self::drop_frame_at(mid, *self, h as int));
            if pre.is_watch(h as int) {
                assert forall|x: int|
                    0 <= x < pre.n() && x != h as int implies #[trigger] pre.node_eq_at(
                    *self,
                    x,
                ) by {
                    assert(pre.node_eq_at(mid, x));
                    assert(mid.node_eq_at(*self, x));
                }
            }
        }
    }

    /// Registers a fresh watch on node `s` and returns its handle: the watch
    /// fires as soon as `s` is invalidated.  A persistent watch (`keep`)
    /// stays registered after firing; a one-shot watch is removed again by
    /// the notification that fires it.
    pub(crate) fn watch(&mut self, s: usize, keep: bool) -> (l: usize)
        requires
            old(self).wf(),
            old(self).coh(),
            (s as int) < old(self).n(),
            !old(self).is_watch(s as int),
        ensures
            final(self).wf(),
            final(self).coh(),
            final(self).n() == old(self).n() + 1,
            l as int == old(self).n(),
            final(self).is_watch(l as int),
            final(self).alive(l as int),
            final(self).pinned(l as int),
            !final(self).fired(l as int),
            final(self).keep(l as int) == keep,
            final(self).subs(s as int) == old(self).subs(s as int).push(l),
            forall|x: int| 0 <= x < old(self).n() && x != s as int ==> #[trigger] old(self).node_eq_at(
                *final(self),
                x,
            ),
            old(self).core_eq_at(*final(self), s as int),
            final(self).alive(s as int) == old(self).alive(s as int),
            final(self).pinned(s as int) == old(self).pinned(s as int),
            final(self).is_watch(s as int) == old(self).is_watch(s as int),
            final(self).keep(s as int) == old(self).keep(s as int),
            final(self).stale(s as int) == old(self).stale(s as int),
            final(self).cached(s as int) == old(self).cached(s as int),
            final(self).fired(s as int) == old(self).fired(s as int),
            forall|x: int| 0 <= x < old(self).n() ==> final(self).denot(x) == old(self).denot(x),
    {
        let ghost pre = *old(self);
        let l = self.new_watch(keep);
        let ghost mid = *self;
        proof {
            pre.lemma_n_bound();
            assert(pre.wf_at(s as int));
            assert(pre.node_eq_at(mid, s as int));
            assert(mid.subs(s as int) == pre.subs(s as int));
            if mid.subs(s as int).contains(l) {
                let m = choose|m: int|
                    0 <= m < pre.subs(s as int).len() && pre.subs(s as int)[m] == l;
                assert(pre.sub_at(s as int, m) == l as int);
                assert(pre.sub_at(s as int, m) < pre.n());
                assert(false);
            }
        }
        self.subscribe(s, l);
        proof {
            assert forall|x: int|
                0 <= x < pre.n() && x != s as int implies #[trigger] pre.node_eq_at(*self, x) by {
                assert(pre.node_eq_at(mid, x));
                assert(mid.node_eq_at(*self, x));
            }
            assert(mid.subs(s as int) == pre.subs(s as int));
            assert(self.subs(s as int) == pre.subs(s as int).push(l));
            assert(pre.node_eq_at(mid, s as int));
            assert(mid.node_eq_at(*self, l as int));
            assert forall|x: int| 0 <= x < pre.n() implies final(self).denot(x) == pre.denot(x) by {
                assert(mid.denot(x) == pre.denot(x));
                assert(self.denot(x) == mid.denot(x));
            }
        }
        l
    }

    /// Notifies the subscribers of node `j` without touching `j` itself: the
    /// push phase alone.  A derived node must already be stale — its own
    /// invalidation is its caller's business.
    pub(crate) fn notify_subs(&mut self, j: usize)
        requires
            old(self).wf(),
            old(self).coh(),
            (j as int) < old(self).n(),
            !old(self).is_watch(j as int),
            old(self).is_derived(j as int) ==> old(self).stale(j as int),
        ensures
            final(self).wf(),
            final(self).coh(),
            Self::push_frame(*old(self), *final(self)),
            Self::woke_watchers(*old(self), *final(self)),
            old(self).core_eq_at(*final(self), j as int),
            final(self).alive(j as int) == old(self).alive(j as int),
            forall|l: usize| #[trigger] old(self).subs(j as int).contains(l) ==> {
                &&& (old(self).alive(l as int) && old(self).is_derived(l as int)
                    ==> final(self).stale(l as int))
                &&& (old(self).alive(l as int) && old(self).is_watch(l as int)
                    ==> final(self).fired(l as int))
            },
            forall|k: int| 0 <= k < final(self).subs(j as int).len() ==> {
                &&& final(self).alive(#[trigger] final(self).sub_at(j as int, k))
                &&& (final(self).is_derived(final(self).sub_at(j as int, k)) || final(self).keep(
                    final(self).sub_at(j as int, k),
                ))
            },
            final(self).subs(j as int) == old(self).keep_interested(old(self).subs(j as int)),
    {
        proof {
            old(self).lemma_coh_exc_mono(Set::empty(), Set::empty().insert(j as int));
        }
        self.notify_from(j, Ghost(Set::empty()));
    }

    /// A copy of the subscriber list of node `i`.
    pub(crate) fn subs_vec(&self, i: usize) -> (ds: Vec<usize>)
        requires
            (i as int) < self.n(),
        ensures
            ds@ == self.subs(i as int),
    {
        let ds = self.nodes[i].subs.clone();
        proof {
            assert forall|m: int| 0 <= m < ds@.len() implies ds@[m] == self.subs(i as int)[m] by {}
            assert(ds@ =~= self.subs(i as int));
        }
        ds
    }

    /// Whether watch `l` has fired since it was registered.
    pub(crate) fn watch_fired(&self, l: usize) -> (r: bool)
        requires
            (l as int) < self.n(),
        ensures
            r == self.fired(l as int),
    {
        match &self.nodes[l].payload {
            Payload::Watch { fired, .. } => *fired,
            _ => false,
        }
    }

    /// Every node is exactly one of a cell, a derived node and a watch, and
    /// only derived nodes are ever stale.
    pub proof fn lemma_node_kinds(self, i: int)
        ensures
            self.is_cell(i) || self.is_derived(i) || self.is_watch(i),
            !(self.is_cell(i) && self.is_derived(i)),
            !(self.is_cell(i) && self.is_watch(i)),
            !(self.is_derived(i) && self.is_watch(i)),
            self.stale(i) ==> self.is_derived(i),
    {
    }

    /// The node count is a count.
    pub proof fn lemma_n_nonneg(self)
        ensures
            self.n() >= 0,
    {
    }

    /// No dependency list ever names a watch, so nothing holds a share of
    /// one: releasing a watch handle always reclaims the node.
    pub proof fn lemma_watch_not_depended(self, l: usize)
        requires
            self.wf(),
            self.is_watch(l as int),
        ensures
            !self.depended_on(l),
    {
        if self.depended_on(l) {
            let x = choose|x: int|
                0 <= x < self.n() && self.alive(x) && self.is_derived(x) && #[trigger] self.deps(
                    x,
                ).contains(l);
            let m = choose|m: int| 0 <= m < self.deps(x).len() && self.deps(x)[m] == l;
            assert(self.wf_at(x));
            assert(self.dep_at(x, m) == l as int);
            assert(!self.is_watch(self.dep_at(x, m)));
            assert(false);
        }
    }

    /// Coherence spelled out for callers: a live, fresh derived node is
    /// registered with each of its dependencies, and they are all live and
    /// fresh themselves.
    pub proof fn lemma_fresh_subscribed(self, i: int, j: int)
        requires
            self.wf(),
            self.coh(),
            self.valid(i),
            self.alive(i),
            self.is_derived(i),
            !self.stale(i),
            0 <= j < self.deps(i).len(),
        ensures
            0 <= self.dep_at(i, j) < i,
            self.alive(self.dep_at(i, j)),
            self.subs(self.dep_at(i, j)).contains(i as usize),
            self.fresh(self.dep_at(i, j)),
    {
        assert(self.coh_at(i, Set::empty()));
        assert(self.wf_at(i));
        assert(self.dep_live(i, j));
        assert forall|m: int|
            0 <= m < self.deps(i).len() implies !Set::<int>::empty().contains(
            #[trigger] self.dep_at(i, m),
        ) by {}
        assert(self.node_ok(i));
    }

    /// The denotation of a cell is the value it holds.
    pub proof fn lemma_denot_cell(self, i: int)
        requires
            self.valid(i),
            self.is_cell(i),
        ensures
            self.denot(i) == self.value(i),
    {
    }

    /// The inputs a recomputation of node `i` from scratch would combine:
    /// the denotations of its dependencies, in order.
    pub open spec fn denot_inputs(self, i: int) -> Seq<V> {
        Seq::new(self.deps(i).len(), |j: int| self.denot(self.dep_at(i, j)))
    }

    /// The denotation of a derived node is its operator applied to the
    /// denotations of its dependencies.
    pub proof fn lemma_denot_derived(self, i: int)
        requires
            self.wf(),
            self.valid(i),
            self.is_derived(i),
        ensures
            self.denot(i) == self.op(i).spec_recompute(self.denot_inputs(i)),
    {
        assert(self.wf_at(i));
        self.lemma_denot_deps_len(self.deps(i), i);
        assert forall|j: int|
            0 <= j < self.deps(i).len() implies #[trigger] self.denot_deps(self.deps(i), i)[j]
            == self.denot_inputs(i)[j] by {
            assert(0 <= self.dep_at(i, j) < i);
            self.lemma_denot_deps_index(self.deps(i), i, j);
        }
        assert(self.denot_deps(self.deps(i), i) =~= self.denot_inputs(i));
    }

    /// The denotation of a derived node over one dependency: its operator
    /// applied to that dependency's denotation — so a read of such a node
    /// returns exactly the function of the current source value, however the
    /// write and the read were interleaved.
    pub proof fn lemma_single_dep_denot(self, d: int)
        requires
            self.wf(),
            self.valid(d),
            self.is_derived(d),
            self.deps(d).len() == 1,
        ensures
            self.denot(d) == self.op(d).spec_recompute(seq![self.denot(self.dep_at(d, 0))]),
    {
        self.lemma_denot_derived(d);
        assert(self.denot_inputs(d) =~= seq![self.denot(self.dep_at(d, 0))]);
    }

    /// The push phase never recomputes: however many consecutive writes go
    /// by before the next read, no node's recomputation count moves.
    /// (`push_frame` is the frame every notification guarantees.)
    pub proof fn lemma_write_recomputes_nothing(pre: Self, post: Self, x: int)
        requires
            Self::push_frame(pre, post),
            0 <= x < pre.n(),
        ensures
            post.recomputed(x) == pre.recomputed(x),
    {
        assert(Self::push_frame_at(pre, post, x));
    }

    /// One read recomputes every node at most once, however many paths of a
    /// dependency diamond lead to it — and a node that was fresh when the
    /// read began is not recomputed at all.  (`pull_frame` is the frame every
    /// read guarantees.)
    pub proof fn lemma_diamond_single_recomputation(pre: Self, post: Self, x: int)
        requires
            Self::pull_frame(pre, post),
            0 <= x < pre.n(),
        ensures
            post.recomputed(x) <= pre.recomputed(x) + 1,
            !pre.stale(x) ==> post.recomputed(x) == pre.recomputed(x),
    {
        assert(Self::pull_frame_at(pre, post, x));
    }

    /// A derived node reached from the same source along two paths is still
    /// registered only once: subscriber lists never hold duplicates.
    pub proof fn lemma_subscribers_deduplicated(self, i: int)
        requires
            self.wf(),
            self.valid(i),
        ensures
            self.subs(i).no_duplicates(),
    {
        assert(self.wf_at(i));
    }

    /// Subscriber lists cannot grow without bound: however many short-lived
    /// subscribers have come and gone, a list never exceeds the number of
    /// node slots above its owner.
    pub proof fn lemma_subscribers_bounded(self, i: int)
        requires
            self.wf(),
            self.valid(i),
        ensures
            self.subs(i).len() <= self.n() - i - 1,
    {
        assert(self.wf_at(i));
        let s = self.subs(i).map_values(|u: usize| u as int);
        assert forall|a: int, b: int| 0 <= a < b < s.len() implies s[a] != s[b] by {
            assert(self.subs(i)[a] != self.subs(i)[b]);
        }
        assert(s.no_duplicates());
        s.unique_seq_to_set();
        assert forall|e: int| s.to_set().contains(e) implies vstd::set_lib::set_int_range(
            i + 1,
            self.n(),
        ).contains(e) by {
            let m = choose|m: int| 0 <= m < s.len() && s[m] == e;
            assert(self.sub_at(i, m) == e);
        }
        assert(s.to_set().subset_of(vstd::set_lib::set_int_range(i + 1, self.n())));
        vstd::set_lib::lemma_int_range(i + 1, self.n());
        vstd::set_lib::lemma_len_subset(
            s.to_set(),
            vstd::set_lib::set_int_range(i + 1, self.n()),
        );
    }

    /// Adds a new watch node: an unfired notification flag that fires when a
    /// node it subscribes to is invalidated.  `keep` says whether it stays
    /// registered after firing or is removed again (a one-shot watch).
    pub(crate) fn new_watch(&mut self, keep: bool) -> (i: usize)
        requires
            old(self).wf(),
            old(self).coh(),
        ensures
            final(self).wf(),
            final(self).coh(),
            final(self).n() == old(self).n() + 1,
            i as int == old(self).n(),
            final(self).alive(i as int),
            final(self).pinned(i as int),
            final(self).is_watch(i as int),
            !final(self).fired(i as int),
            final(self).keep(i as int) == keep,
            final(self).subs(i as int) =~= Seq::<usize>::empty(),
            forall|x: int| 0 <= x < old(self).n() ==> #[trigger] old(self).node_eq_at(*final(self), x),
            forall|x: int| 0 <= x < old(self).n() ==> final(self).denot(x) == old(self).denot(x),
    {
        let i = self.nodes.len();
        self.nodes.push(Node {
            alive: true,
            pinned: true,
            payload: Payload::Watch { fired: false, keep },
            subs: Vec::new(),
        });
        proof {
            assert forall|x: int| 0 <= x < old(self).n() implies #[trigger] old(self).node_eq_at(*self, x) by {
                assert(self.nodes@[x] == old(self).nodes@[x]);
            }
            Self::lemma_append_preserves(*old(self), *self);
        }
        i
    }
}

} // verus!
