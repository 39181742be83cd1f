//! Source cells: the mutable inputs of a graph, and the combinators that
//! build derived values over them.

use vstd::prelude::*;

verus! {

use crate::computed::Computed;
use crate::graph::Graph;
use crate::graph::Recompute;
use crate::sig_traits::SignalLike;

/// A handle to a source cell: a mutable holder of a value.  Writing it
/// synchronously notifies all current subscribers; a cell itself is never
/// stale.
#[derive(Clone, Copy)]
pub struct Signal {
    id: usize,
}

impl SignalLike for Signal {
    closed spec fn sid(&self) -> int {
        self.id as int
    }

    fn id(&self) -> (r: usize)
        ensures
            r as int == self.sid(),
    {
        self.id
    }
}

impl Signal {
    /// Creates a cell holding `value`.
    pub fn new<V: Copy, C: Recompute<V>>(g: &mut Graph<V, C>, value: V) -> (s: Signal)
        requires
            old(g).wf(),
            old(g).coh(),
        ensures
            final(g).wf(),
            final(g).coh(),
            final(g).n() == old(g).n() + 1,
            s.sid() == old(g).n(),
            final(g).alive(s.sid()),
            final(g).pinned(s.sid()),
            final(g).is_cell(s.sid()),
            final(g).value(s.sid()) == value,
            final(g).denot(s.sid()) == value,
            final(g).subs(s.sid()) =~= Seq::<usize>::empty(),
            forall|x: int| 0 <= x < old(g).n() ==> #[trigger] old(g).node_eq_at(*final(g), x),
            forall|x: int| 0 <= x < old(g).n() ==> final(g).denot(x) == old(g).denot(x),
    {
        let i = g.new_cell(value);
        proof {
            g.lemma_denot_cell(i as int);
        }
        Signal { id: i }
    }

    /// Reads the cell's current value; a cell is always current.
    pub fn get_ref<V: Copy, C: Recompute<V>>(&self, g: &mut Graph<V, C>) -> (v: V)
        requires
            old(g).wf(),
            old(g).coh(),
            0 <= self.sid() < old(g).n(),
            old(g).alive(self.sid()),
            old(g).is_cell(self.sid()),
        ensures
            *final(g) == *old(g),
            v == old(g).value(self.sid()),
            v == old(g).denot(self.sid()),
    {
        proof {
            g.lemma_denot_cell(self.sid());
            g.lemma_node_kinds(self.sid());
        }
        g.pull(self.id)
    }

    /// Replaces the cell's value, then synchronously notifies all current
    /// subscribers in registration order: every derived node reachable
    /// through live subscription edges is marked stale before this returns —
    /// nothing is recomputed yet — every watch on the way fires, and dead
    /// subscriber entries are pruned from the lists the notification passes
    /// through.
    pub fn set<V: Copy, C: Recompute<V>>(&self, g: &mut Graph<V, C>, value: V)
        requires
            old(g).wf(),
            old(g).coh(),
            0 <= self.sid() < old(g).n(),
            old(g).alive(self.sid()),
            old(g).is_cell(self.sid()),
        ensures
            final(g).wf(),
            final(g).coh(),
            final(g).n() == old(g).n(),
            final(g).is_cell(self.sid()),
            final(g).value(self.sid()) == value,
            final(g).alive(self.sid()),
            final(g).recomputed(self.sid()) == old(g).recomputed(self.sid()),
            forall|x: int| 0 <= x < old(g).n() && x != self.sid() ==> #[trigger] Graph::<
                V,
                C,
            >::push_frame_at(*old(g), *final(g), x),
            forall|x: int, e: usize|
                0 <= x < old(g).n() && #[trigger] final(g).subs(x).contains(e)
                    ==> old(g).subs(x).contains(e),
            forall|x: int, e: usize|
                0 <= x < old(g).n() && (e as int) < old(g).n() && #[trigger] old(g).subs(
                    x,
                ).contains(e) && old(g).alive(e as int) && (old(g).is_derived(e as int) || (old(
                    g,
                ).is_watch(e as int) && old(g).keep(e as int))) ==> final(g).subs(x).contains(e),
            forall|k: int| 0 <= k < final(g).subs(self.sid()).len() ==> {
                &&& final(g).alive(#[trigger] final(g).sub_at(self.sid(), k))
                &&& (final(g).is_derived(final(g).sub_at(self.sid(), k)) || final(g).keep(
                    final(g).sub_at(self.sid(), k),
                ))
            },
            final(g).subs(self.sid()) == old(g).keep_interested(old(g).subs(self.sid())),
            forall|l: usize| #[trigger] old(g).subs(self.sid()).contains(l) ==> {
                &&& (old(g).alive(l as int) && old(g).is_derived(l as int) ==> final(g).stale(
                    l as int,
                ))
                &&& (old(g).alive(l as int) && old(g).is_watch(l as int) ==> final(g).fired(
                    l as int,
                ))
            },
            Graph::<V, C>::woke_watchers(*old(g), *final(g)),
    {
        g.set_cell(self.id, value);
    }

    /// Replaces the cell's value by `f` applied to it, then notifies exactly
    /// as [`Self::set`] does: the same staling of every old subscriber, the
    /// same firing of watches, the same pruning to interested entries.
    pub fn update<V: Copy, C: Recompute<V>, F: Fn(V) -> V>(&self, g: &mut Graph<V, C>, f: &F)
        requires
            old(g).wf(),
            old(g).coh(),
            0 <= self.sid() < old(g).n(),
            old(g).alive(self.sid()),
            old(g).is_cell(self.sid()),
            f.requires((old(g).value(self.sid()),)),
        ensures
            final(g).wf(),
            final(g).coh(),
            final(g).n() == old(g).n(),
            final(g).is_cell(self.sid()),
            final(g).alive(self.sid()),
            f.ensures((old(g).value(self.sid()),), final(g).value(self.sid())),
            final(g).pinned(self.sid()) == old(g).pinned(self.sid()),
            final(g).recomputed(self.sid()) == old(g).recomputed(self.sid()),
            forall|x: int| 0 <= x < old(g).n() && x != self.sid() ==> #[trigger] Graph::<
                V,
                C,
            >::push_frame_at(*old(g), *final(g), x),
            forall|x: int, e: usize|
                0 <= x < old(g).n() && #[trigger] final(g).subs(x).contains(e)
                    ==> old(g).subs(x).contains(e),
            forall|x: int, e: usize|
                0 <= x < old(g).n() && (e as int) < old(g).n() && #[trigger] old(g).subs(
                    x,
                ).contains(e) && old(g).alive(e as int) && (old(g).is_derived(e as int) || (old(
                    g,
                ).is_watch(e as int) && old(g).keep(e as int))) ==> final(g).subs(x).contains(e),
            forall|k: int| 0 <= k < final(g).subs(self.sid()).len() ==> {
                &&& final(g).alive(#[trigger] final(g).sub_at(self.sid(), k))
                &&& (final(g).is_derived(final(g).sub_at(self.sid(), k)) || final(g).keep(
                    final(g).sub_at(self.sid(), k),
                ))
            },
            final(g).subs(self.sid()) == old(g).keep_interested(old(g).subs(self.sid())),
            forall|l: usize| #[trigger] old(g).subs(self.sid()).contains(l) ==> {
                &&& (old(g).alive(l as int) && old(g).is_derived(l as int) ==> final(g).stale(
                    l as int,
                ))
                &&& (old(g).alive(l as int) && old(g).is_watch(l as int) ==> final(g).fired(
                    l as int,
                ))
            },
            Graph::<V, C>::woke_watchers(*old(g), *final(g)),
    {
        g.update_cell(self.id, f);
    }

    /// A copy of the cell's current subscriber list.
    pub fn get_deps<V: Copy, C: Recompute<V>>(&self, g: &Graph<V, C>) -> (ds: Vec<usize>)
        requires
            0 <= self.sid() < g.n(),
        ensures
            ds@ == g.subs(self.sid()),
    {
        g.subs_vec(self.id)
    }

    /// Releases this handle: the cell is reclaimed once no live derived node
    /// reads it any more — at once when nothing depends on it, so that the
    /// next notification prunes whatever entries still name it.
    pub fn release<V: Copy, C: Recompute<V>>(self, g: &mut Graph<V, C>)
        requires
            old(g).wf(),
            old(g).coh(),
            0 <= self.sid() < old(g).n(),
            old(g).pinned(self.sid()),
        ensures
            final(g).wf(),
            final(g).coh(),
            final(g).n() == old(g).n(),
            !final(g).pinned(self.sid()),
            !old(g).depended_on((self.sid()) as usize) ==> !final(g).alive(self.sid()),
    {
        g.release(self.id);
    }
}

/// Builds a derived value over two inputs: reading it reads both inputs and
/// combines them through `f`.
pub fn and_2<V: Copy, C: Recompute<V>, A: SignalLike, B: SignalLike>(
    g: &mut Graph<V, C>,
    one: &A,
    other: &B,
    f: C,
) -> (c: Computed)
    requires
        old(g).wf(),
        old(g).coh(),
        0 <= one.sid() < old(g).n(),
        old(g).alive(one.sid()),
        !old(g).is_watch(one.sid()),
        0 <= other.sid() < old(g).n(),
        old(g).alive(other.sid()),
        !old(g).is_watch(other.sid()),
    ensures
        final(g).wf(),
        final(g).coh(),
        final(g).n() == old(g).n() + 1,
        c.sid() == old(g).n(),
        final(g).alive(c.sid()),
        final(g).pinned(c.sid()),
        final(g).is_derived(c.sid()),
        final(g).stale(c.sid()),
        final(g).cached(c.sid()) == None::<V>,
        final(g).op(c.sid()) == f,
        final(g).subs(c.sid()) =~= Seq::<usize>::empty(),
        final(g).recomputed(c.sid()) == 0,
        final(g).deps(c.sid()) =~= seq![one.sid() as usize, other.sid() as usize],
        forall|x: int| 0 <= x < old(g).n() ==> #[trigger] old(g).node_eq_at(*final(g), x),
        forall|x: int| 0 <= x < old(g).n() ==> final(g).denot(x) == old(g).denot(x),
        final(g).denot(c.sid()) == f.spec_recompute(
            seq![old(g).denot(one.sid()), old(g).denot(other.sid())],
        ),
{
    let ghost pre = *old(g);
    let mut ds: Vec<usize> = Vec::new();
    let i1 = one.id();
    let i2 = other.id();
    ds.push(i1);
    ds.push(i2);
    let ghost dsg = ds@;
    proof {
        assert(dsg =~= seq![i1, i2]);
        assert(dsg =~= seq![one.sid() as usize, other.sid() as usize]);
    }
    let c = Computed::new(g, ds, f);
    proof {
        assert(Seq::new(dsg.len(), |j: int| pre.denot(dsg[j] as int)) =~= seq![
            pre.denot(one.sid()),
            pre.denot(other.sid()),
        ]);
    }
    c
}

/// Builds a derived value over three inputs, as [`and_2`] does over two.
pub fn and_3<V: Copy, C: Recompute<V>, A: SignalLike, B: SignalLike, D: SignalLike>(
    g: &mut Graph<V, C>,
    one: &A,
    two: &B,
    three: &D,
    f: C,
) -> (c: Computed)
    requires
        old(g).wf(),
        old(g).coh(),
        0 <= one.sid() < old(g).n(),
        old(g).alive(one.sid()),
        !old(g).is_watch(one.sid()),
        0 <= two.sid() < old(g).n(),
        old(g).alive(two.sid()),
        !old(g).is_watch(two.sid()),
        0 <= three.sid() < old(g).n(),
        old(g).alive(three.sid()),
        !old(g).is_watch(three.sid()),
    ensures
        final(g).wf(),
        final(g).coh(),
        final(g).n() == old(g).n() + 1,
        c.sid() == old(g).n(),
        final(g).alive(c.sid()),
        final(g).pinned(c.sid()),
        final(g).is_derived(c.sid()),
        final(g).stale(c.sid()),
        final(g).cached(c.sid()) == None::<V>,
        final(g).op(c.sid()) == f,
        final(g).subs(c.sid()) =~= Seq::<usize>::empty(),
        final(g).recomputed(c.sid()) == 0,
        final(g).deps(c.sid()) =~= seq![
            one.sid() as usize,
            two.sid() as usize,
            three.sid() as usize,
        ],
        forall|x: int| 0 <= x < old(g).n() ==> #[trigger] old(g).node_eq_at(*final(g), x),
        forall|x: int| 0 <= x < old(g).n() ==> final(g).denot(x) == old(g).denot(x),
        final(g).denot(c.sid()) == f.spec_recompute(
            seq![old(g).denot(one.sid()), old(g).denot(two.sid()), old(g).denot(three.sid())],
        ),
{
    let ghost pre = *old(g);
    let mut ds: Vec<usize> = Vec::new();
    let i1 = one.id();
    let i2 = two.id();
    let i3 = three.id();
    ds.push(i1);
    ds.push(i2);
    ds.push(i3);
    let ghost dsg = ds@;
    proof {
        assert(dsg =~= seq![i1, i2, i3]);
        assert(dsg =~= seq![one.sid() as usize, two.sid() as usize, three.sid() as usize]);
    }
    let c = Computed::new(g, ds, f);
    proof {
        assert(Seq::new(dsg.len(), |j: int| pre.denot(dsg[j] as int)) =~= seq![
            pre.denot(one.sid()),
            pre.denot(two.sid()),
            pre.denot(three.sid()),
        ]);
    }
    c
}

} // verus!
