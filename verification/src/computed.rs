//! Derived values: memoized nodes recomputed lazily on read.

use vstd::prelude::*;

verus! {

use crate::graph::Graph;
use crate::graph::Recompute;
use crate::sig_traits::SignalLike;

/// A handle to a derived node: a memoized function of other reactive values,
/// recomputed on read when stale, invalidated when a dependency is written.
#[derive(Clone, Copy)]
pub struct Computed {
    id: usize,
}

impl SignalLike for Computed {
    closed spec fn sid(&self) -> int {
        self.id as int
    }

    fn id(&self) -> (r: usize)
        ensures
            r as int == self.sid(),
    {
        self.id
    }
}

impl Computed {
    /// Creates a derived node over the nodes listed in `deps`, combining
    /// their values through `f`.  It starts stale with nothing memoized and
    /// subscribes to its dependencies on its first read.
    pub fn new<V: Copy, C: Recompute<V>>(g: &mut Graph<V, C>, deps: Vec<usize>, f: C) -> (c:
        Computed)
        requires
            old(g).wf(),
            old(g).coh(),
            forall|j: int| #![trigger deps@[j]] 0 <= j < deps@.len() ==> {
                &&& 0 <= (deps@[j] as int) < old(g).n()
                &&& old(g).alive(deps@[j] as int)
                &&& !old(g).is_watch(deps@[j] as int)
            },
        ensures
            final(g).wf(),
            final(g).coh(),
            final(g).n() == old(g).n() + 1,
            c.sid() == old(g).n(),
            final(g).alive(c.sid()),
            final(g).pinned(c.sid()),
            final(g).is_derived(c.sid()),
            final(g).stale(c.sid()),
            final(g).cached(c.sid()) == None::<V>,
            final(g).op(c.sid()) == f,
            final(g).deps(c.sid()) == deps@,
            final(g).subs(c.sid()) =~= Seq::<usize>::empty(),
            final(g).recomputed(c.sid()) == 0,
            forall|x: int| 0 <= x < old(g).n() ==> #[trigger] old(g).node_eq_at(*final(g), x),
            forall|x: int| 0 <= x < old(g).n() ==> final(g).denot(x) == old(g).denot(x),
            final(g).denot(c.sid()) == f.spec_recompute(
                Seq::new(deps@.len(), |j: int| old(g).denot(deps@[j] as int)),
            ),
    {
        let ghost pre = *old(g);
        proof {
            assert forall|j: int| #![trigger deps@[j]] 0 <= j < deps@.len() implies {
                &&& pre.valid(deps@[j] as int)
                &&& pre.alive(deps@[j] as int)
                &&& !pre.is_watch(deps@[j] as int)
            } by {}
        }
        let i = g.new_derived(deps, f);
        proof {
            g.lemma_denot_derived(i as int);
            assert forall|j: int|
                0 <= j < deps@.len() implies #[trigger] g.denot_inputs(i as int)[j] == pre.denot(
                deps@[j] as int,
            ) by {
                assert(g.dep_at(i as int, j) == deps@[j] as int);
                assert(g.denot(deps@[j] as int) == pre.denot(deps@[j] as int));
            }
            assert(g.denot_inputs(i as int) =~= Seq::new(
                deps@.len(),
                |j: int| pre.denot(deps@[j] as int),
            ));
        }
        Computed { id: i }
    }

    /// Reads the derived value, recomputing it first if it is stale: the
    /// result is always the node's denotation, never an outdated memo.
    /// Reading a fresh node changes nothing and recomputes nothing; one read
    /// recomputes each node of the dependency cone at most once, however
    /// many paths lead to it.
    pub fn get_ref<V: Copy, C: Recompute<V>>(&self, g: &mut Graph<V, C>) -> (v: V)
        requires
            old(g).wf(),
            old(g).coh(),
            0 <= self.sid() < old(g).n(),
            old(g).alive(self.sid()),
            old(g).is_derived(self.sid()),
        ensures
            final(g).wf(),
            final(g).coh(),
            Graph::<V, C>::pull_frame(*old(g), *final(g)),
            v == old(g).denot(self.sid()),
            !final(g).stale(self.sid()),
            final(g).current(self.sid()) == v,
            old(g).stale(self.sid()) ==> final(g).recomputed(self.sid()) == old(g).recomputed(
                self.sid(),
            ) + 1,
            old(g).fresh(self.sid()) ==> *final(g) == *old(g),
    {
        proof {
            g.lemma_node_kinds(self.sid());
        }
        g.pull(self.id)
    }

    /// A copy of the node's current subscriber list.
    pub fn get_deps<V: Copy, C: Recompute<V>>(&self, g: &Graph<V, C>) -> (ds: Vec<usize>)
        requires
            0 <= self.sid() < g.n(),
        ensures
            ds@ == g.subs(self.sid()),
    {
        g.subs_vec(self.id)
    }

    /// Releases this handle: the node is reclaimed once no live derived node
    /// reads it any more — at once when nothing depends on it — and
    /// reclaiming it releases its own hold on its dependencies.  Subscriber
    /// entries naming the reclaimed node vanish at the next notification
    /// that passes them.
    pub fn release<V: Copy, C: Recompute<V>>(self, g: &mut Graph<V, C>)
        requires
            old(g).wf(),
            old(g).coh(),
            0 <= self.sid() < old(g).n(),
            old(g).pinned(self.sid()),
        ensures
            final(g).wf(),
            final(g).coh(),
            final(g).n() == old(g).n(),
            !final(g).pinned(self.sid()),
            !old(g).depended_on((self.sid()) as usize) ==> !final(g).alive(self.sid()),
    {
        g.release(self.id);
    }
}

} // verus!
