//! The vocabulary shared by all reactive handles: the [`SignalLike`] trait,
//! invalidation handles ([`Waker`]), the push-phase entry point ([`notify`])
//! and the blocking adapter ([`SigBlocker`]).

use vstd::prelude::*;

verus! {

use crate::graph::Graph;
use crate::graph::Recompute;

/// A handle to a readable node of a [`Graph`]: a cell or a derived value.
pub trait SignalLike: Sized {
    /// The index of the node this handle names.
    spec fn sid(&self) -> int;

    /// The node index, as a value.
    fn id(&self) -> (r: usize)
        ensures
            r as int == self.sid(),
    ;
}

/// An invalidation handle: interest in one reactive value, registered in its
/// subscriber list.  It fires — once, or every time, depending on how it was
/// registered — when that value is invalidated, and it reports "no longer
/// interested" afterwards if it was one-shot, so the next notification prunes
/// it.
#[derive(Clone, Copy)]
pub struct Waker {
    id: usize,
}

impl Waker {
    /// The index of the watch node this handle names.
    pub closed spec fn wid(&self) -> int {
        self.id as int
    }

    pub(crate) fn from_id(id: usize) -> (w: Waker)
        ensures
            w.wid() == id as int,
    {
        Waker { id }
    }

    /// Whether this handle has fired since it was registered.
    pub fn fired<V: Copy, C: Recompute<V>>(&self, g: &Graph<V, C>) -> (r: bool)
        requires
            0 <= self.wid() < g.n(),
        ensures
            r == g.fired(self.wid()),
    {
        g.watch_fired(self.id)
    }

    /// Releases the handle: no dependency list may name a watch, so the
    /// watch node is reclaimed at once and nothing else is touched; the next
    /// notification that passes its entries prunes them.
    pub fn release<V: Copy, C: Recompute<V>>(self, g: &mut Graph<V, C>)
        requires
            old(g).wf(),
            old(g).coh(),
            0 <= self.wid() < old(g).n(),
            old(g).is_watch(self.wid()),
            old(g).pinned(self.wid()),
        ensures
            final(g).wf(),
            final(g).coh(),
            final(g).n() == old(g).n(),
            !final(g).pinned(self.wid()),
            !final(g).alive(self.wid()),
            old(g).core_eq_at(*final(g), self.wid()),
            final(g).is_watch(self.wid()),
            forall|x: int| 0 <= x < old(g).n() && x != self.wid() ==> #[trigger] old(g).node_eq_at(
                *final(g),
                x,
            ),
    {
        proof {
            g.lemma_watch_not_depended(self.id);
        }
        g.release(self.id);
    }
}

/// Registers interest in `s`: the returned handle fires as soon as `s` is
/// invalidated.  With `keep` the handle stays registered after firing; without
/// it, it is one-shot and the notification that fires it also removes it.
pub fn on_trigger<V: Copy, C: Recompute<V>, S: SignalLike>(
    g: &mut Graph<V, C>,
    s: &S,
    keep: bool,
) -> (w: Waker)
    requires
        old(g).wf(),
        old(g).coh(),
        0 <= s.sid() < old(g).n(),
        !old(g).is_watch(s.sid()),
    ensures
        final(g).wf(),
        final(g).coh(),
        final(g).n() == old(g).n() + 1,
        w.wid() == old(g).n(),
        final(g).is_watch(w.wid()),
        final(g).alive(w.wid()),
        final(g).pinned(w.wid()),
        !final(g).fired(w.wid()),
        final(g).keep(w.wid()) == keep,
        final(g).subs(s.sid()) == old(g).subs(s.sid()).push((old(g).n()) as usize),
        forall|x: int| 0 <= x < old(g).n() && x != s.sid() ==> #[trigger] old(g).node_eq_at(
            *final(g),
            x,
        ),
        old(g).core_eq_at(*final(g), s.sid()),
        final(g).stale(s.sid()) == old(g).stale(s.sid()),
        final(g).alive(s.sid()) == old(g).alive(s.sid()),
        final(g).pinned(s.sid()) == old(g).pinned(s.sid()),
        final(g).is_watch(s.sid()) == old(g).is_watch(s.sid()),
        final(g).keep(s.sid()) == old(g).keep(s.sid()),
        final(g).cached(s.sid()) == old(g).cached(s.sid()),
        final(g).fired(s.sid()) == old(g).fired(s.sid()),
        forall|x: int| 0 <= x < old(g).n() ==> final(g).denot(x) == old(g).denot(x),
{
    let l = g.watch(s.id(), keep);
    Waker::from_id(l)
}

/// Notifies the subscribers of `s` that it has been invalidated: each live
/// subscriber is woken in registration order — derived subscribers mark
/// themselves stale and pass the notification on, watches fire — and entries
/// that report no further interest are removed for good.  Nothing is
/// recomputed: the push phase only flips stale flags.
pub fn notify<V: Copy, C: Recompute<V>, S: SignalLike>(g: &mut Graph<V, C>, s: &S)
    requires
        old(g).wf(),
        old(g).coh(),
        0 <= s.sid() < old(g).n(),
        !old(g).is_watch(s.sid()),
        old(g).is_derived(s.sid()) ==> old(g).stale(s.sid()),
    ensures
        final(g).wf(),
        final(g).coh(),
        Graph::<V, C>::push_frame(*old(g), *final(g)),
        Graph::<V, C>::woke_watchers(*old(g), *final(g)),
        forall|l: usize| #[trigger] old(g).subs(s.sid()).contains(l) ==> {
            &&& (old(g).alive(l as int) && old(g).is_derived(l as int) ==> final(g).stale(l as int))
            &&& (old(g).alive(l as int) && old(g).is_watch(l as int) ==> final(g).fired(l as int))
        },
        forall|k: int| 0 <= k < final(g).subs(s.sid()).len() ==> {
            &&& final(g).alive(#[trigger] final(g).sub_at(s.sid(), k))
            &&& (final(g).is_derived(final(g).sub_at(s.sid(), k)) || final(g).keep(
                final(g).sub_at(s.sid(), k),
            ))
        },
        final(g).subs(s.sid()) == old(g).keep_interested(old(g).subs(s.sid())),
{
    g.notify_subs(s.id());
}

/// What one poll of the blocking adapter may do to any pre-existing node
/// other than the previously armed one-shot handle: nothing beyond what a
/// read does — its kind, value, operator, dependencies, liveness and hold
/// stay; staleness is only ever cleared.
pub open spec fn poll_frame_at<V: Copy, C: Recompute<V>>(
    pre: Graph<V, C>,
    post: Graph<V, C>,
    x: int,
) -> bool {
    &&& pre.core_eq_at(post, x)
    &&& pre.is_watch(x) == post.is_watch(x)
    &&& pre.alive(x) == post.alive(x)
    &&& pre.pinned(x) == post.pinned(x)
    &&& pre.keep(x) == post.keep(x)
    &&& (post.stale(x) ==> pre.stale(x))
}

/// The blocking adapter: lets external cooperative code wait until a reactive
/// value satisfies a predicate.  Each pending poll reads the value — bringing
/// it up to date — and, when the predicate does not hold yet, arms a one-shot
/// invalidation handle; the driving loop re-polls once that handle fires.
pub struct SigBlocker {
    sid: usize,
    armed: Option<Waker>,
}

impl SigBlocker {
    /// The index of the node being waited on.
    pub closed spec fn watched(&self) -> int {
        self.sid as int
    }

    /// The index of the currently armed one-shot handle, if any.
    pub closed spec fn armed_watch(&self) -> Option<int> {
        match self.armed {
            Some(w) => Some(w.wid()),
            None => None,
        }
    }

    /// The adapter's handles are valid in `g`: whatever is armed names a
    /// live, still-held watch node.
    pub open spec fn wf_in<V: Copy, C: Recompute<V>>(&self, g: Graph<V, C>) -> bool {
        match self.armed_watch() {
            Some(l) => 0 <= l < g.n() && g.is_watch(l) && g.alive(l) && g.pinned(l),
            None => true,
        }
    }

    /// Starts waiting on `s`; nothing is armed until the first poll.
    pub fn block_on<S: SignalLike>(s: &S) -> (b: SigBlocker)
        ensures
            b.watched() == s.sid(),
            b.armed_watch() == None::<int>,
    {
        SigBlocker { sid: s.id(), armed: None }
    }

    /// One poll: reads the watched value (recomputing it if stale) and tests
    /// the completion predicate.  If it holds, the wait is over; otherwise a
    /// fresh one-shot handle is armed and the caller should try again once
    /// [`Self::ready`] reports that it fired.
    pub fn poll_step<V: Copy, C: Recompute<V>, F: Fn(V) -> bool>(
        &mut self,
        g: &mut Graph<V, C>,
        f: &F,
    ) -> (done: bool)
        requires
            old(g).wf(),
            old(g).coh(),
            0 <= old(self).watched() < old(g).n(),
            old(g).alive(old(self).watched()),
            old(g).pinned(old(self).watched()),
            !old(g).is_watch(old(self).watched()),
            forall|x: V| f.requires((x,)),
            old(self).wf_in(*old(g)),
        ensures
            final(g).wf(),
            final(g).coh(),
            final(g).n() >= old(g).n(),
            final(self).watched() == old(self).watched(),
            f.ensures((old(g).denot(old(self).watched()),), done),
            done ==> final(self).armed_watch() == None::<int>,
            !done ==> match final(self).armed_watch() {
                Some(l) => {
                    &&& final(g).is_watch(l)
                    &&& final(g).alive(l)
                    &&& !final(g).fired(l)
                    &&& !final(g).keep(l)
                    &&& final(g).subs(old(self).watched()).contains(l as usize)
                },
                None => false,
            },
            final(self).wf_in(*final(g)),
            final(g).alive(final(self).watched()),
            final(g).pinned(final(self).watched()),
            !final(g).is_watch(final(self).watched()),
            old(g).core_eq_at(*final(g), old(self).watched()),
            final(g).is_cell(old(self).watched()) == old(g).is_cell(old(self).watched()),
            final(g).is_derived(old(self).watched()) == old(g).is_derived(old(self).watched()),
            forall|x: int|
                0 <= x < old(g).n() && Some(x) != old(self).armed_watch()
                    ==> #[trigger] poll_frame_at(*old(g), *final(g), x),
            forall|x: int| 0 <= x < old(g).n() ==> final(g).denot(x) == old(g).denot(x),
    {
        proof {
            g.lemma_node_kinds(self.sid as int);
        }
        let v = g.pull(self.sid);
        let ghost g1 = *g;
        proof {
            assert(Graph::<V, C>::pull_frame_at(*old(g), g1, self.sid as int));
            assert(g1.alive(self.sid as int) && g1.pinned(self.sid as int) && !g1.is_watch(
                self.sid as int,
            ));
        }
        let done = f(v);
        // the previous poll's handle, if one is still around, is obsolete
        // either way
        let prev = self.armed;
        if let Some(w) = prev {
            proof {
                assert(Graph::<V, C>::pull_frame_at(*old(g), g1, w.wid()));
                assert(Graph::<V, C>::pull_frame_at(*old(g), g1, self.sid as int));
                assert(old(g).is_watch(w.wid()) && !old(g).is_watch(self.sid as int));
                assert(g1.is_watch(w.wid()));
            }
            w.release(g);
            proof {
                assert(self.sid as int != w.wid());
                assert(g1.node_eq_at(*g, self.sid as int));
            }
        }
        let ghost g2 = *g;
        proof {
            assert(g.alive(self.sid as int) && g.pinned(self.sid as int));
            assert(!g.is_watch(self.sid as int));
            // nothing but the released handle has moved so far, and no
            // denotation has
            assert forall|x: int|
                0 <= x < old(g).n() && Some(x) != old(self).armed_watch() implies #[trigger] poll_frame_at(
                *old(g),
                g2,
                x,
            ) by {
                assert(Graph::<V, C>::pull_frame_at(*old(g), g1, x));
                if g1 != g2 {
                    let w = prev.unwrap();
                    assert(g1.node_eq_at(g2, x));
                }
            }
            assert forall|x: int| 0 <= x < old(g).n() implies g2.denot(x) == old(g).denot(x) by {
                assert(g1.denot(x) == old(g).denot(x));
                if g1 != g2 {
                    let w = prev.unwrap();
                    assert forall|y: int| 0 <= y < g1.n() implies g1.core_eq_at(g2, y) by {
                        if y != w.wid() {
                            assert(g1.node_eq_at(g2, y));
                        } else {
                            assert(g1.core_eq_at(g2, y));
                        }
                    }
                    g1.lemma_denot_local(g2, g1.n(), x);
                }
            }
        }
        proof {
            assert(Some(self.sid as int) != old(self).armed_watch());
            assert(poll_frame_at(*old(g), g2, self.sid as int));
        }
        if done {
            self.armed = None;
            true
        } else {
            let l = g.watch(self.sid, false);
            self.armed = Some(Waker::from_id(l));
            proof {
                assert(g.subs(self.sid as int)[g.subs(self.sid as int).len() - 1] == l);
                assert(g.subs(self.sid as int).contains(l));
                assert forall|x: int|
                    0 <= x < old(g).n() && Some(x) != old(self).armed_watch() implies #[trigger] poll_frame_at(
                    *old(g),
                    *g,
                    x,
                ) by {
                    assert(poll_frame_at(*old(g), g2, x));
                    if x != self.sid as int {
                        assert(g2.node_eq_at(*g, x));
                    }
                }
                assert(g2.core_eq_at(*g, self.sid as int));
            }
            false
        }
    }

    /// Whether the wait should be polled again: true once the armed handle
    /// has fired (or when nothing is armed yet).
    pub fn ready<V: Copy, C: Recompute<V>>(&self, g: &Graph<V, C>) -> (r: bool)
        requires
            self.wf_in(*g),
        ensures
            r == match self.armed_watch() {
                Some(l) => g.fired(l),
                None => true,
            },
    {
        match &self.armed {
            Some(w) => w.fired(g),
            None => true,
        }
    }
}

} // verus!
