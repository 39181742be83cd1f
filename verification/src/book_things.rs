//! Order books: collections of offers addressed by index, behind the
//! [`BookBuilder`] interface.  [`ArrBook`] keeps offers in a plain array and
//! places each insertion at its own index; [`MapBook`] keeps them as an
//! ordered set of unique indices.

use vstd::prelude::*;

verus! {

/// One offer, identified by its index.
#[derive(Clone, Copy, PartialEq, Eq, Structural, Debug)]
pub struct Offer {
    pub index: usize,
}

/// A builder of order books: offers go in one at a time and come back out
/// as one array.  Every implementation pins down, in its `spec_add` and
/// `spec_remove`, exactly what adding and removing do to its contents.
pub trait BookBuilder: Sized {
    /// The offers currently held, in their stored order.
    spec fn offers_seq(&self) -> Seq<Offer>;

    /// What adding `offer` turns the contents into.
    spec fn spec_add(&self, offer: Offer) -> Seq<Offer>;

    /// What removing `offer` turns the contents into.
    spec fn spec_remove(&self, offer: Offer) -> Seq<Offer>;

    /// When an offer may be removed.
    spec fn can_remove(&self, offer: Offer) -> bool;

    fn add_offer(&mut self, offer: Offer)
        ensures
            final(self).offers_seq() == old(self).spec_add(offer),
    ;

    fn remove_offer(&mut self, offer: Offer)
        requires
            old(self).can_remove(offer),
        ensures
            final(self).offers_seq() == old(self).spec_remove(offer),
    ;

    fn to_vec(self) -> (v: Vec<Offer>)
        ensures
            v@ == self.offers_seq(),
    ;
}

/// A book backed by a plain array: adding an offer inserts it at its own
/// index (clamped to the end), removing one removes whatever sits at its
/// index.
pub struct ArrBook {
    offers: Vec<Offer>,
}

impl ArrBook {
    /// A book prefilled with one empty offer per slot.
    pub fn new() -> (b: ArrBook)
        ensures
            b.offers_seq().len() == 16000,
            forall|i: int| 0 <= i < 16000 ==> #[trigger] b.offers_seq()[i] == (Offer { index: 0 }),
    {
        ArrBook { offers: vec![Offer { index: 0 };16000] }
    }
}

impl BookBuilder for ArrBook {
    closed spec fn offers_seq(&self) -> Seq<Offer> {
        self.offers@
    }

    /// Insertion goes at `offer.index`, clamped to the last position.
    open spec fn spec_add(&self, offer: Offer) -> Seq<Offer> {
        if self.offers_seq().len() == 0 {
            self.offers_seq().push(offer)
        } else {
            let at = if offer.index < self.offers_seq().len() - 1 {
                offer.index as int
            } else {
                self.offers_seq().len() - 1
            };
            self.offers_seq().insert(at, offer)
        }
    }

    /// Removal takes out whatever sits at `offer.index`.
    open spec fn spec_remove(&self, offer: Offer) -> Seq<Offer> {
        self.offers_seq().remove(offer.index as int)
    }

    /// Only an index inside the array can be removed (the array does not
    /// shrink below it).
    open spec fn can_remove(&self, offer: Offer) -> bool {
        offer.index < self.offers_seq().len()
    }

    fn add_offer(&mut self, offer: Offer)
        ensures
            final(self).offers_seq() == old(self).spec_add(offer),
    {
        if self.offers.len() == 0 {
            self.offers.push(offer);
        } else {
            let last = self.offers.len() - 1;
            let at = if offer.index < last {
                offer.index
            } else {
                last
            };
            self.offers.insert(at, offer);
        }
    }

    fn remove_offer(&mut self, offer: Offer)
        ensures
            final(self).offers_seq() == old(self).spec_remove(offer),
    {
        self.offers.remove(offer.index);
    }

    fn to_vec(self) -> (v: Vec<Offer>)
        ensures
            v@ == self.offers_seq(),
    {
        self.offers
    }
}

/// Whether a sequence of offers is strictly ordered by index (so each index
/// occurs at most once).
pub open spec fn strictly_sorted(s: Seq<Offer>) -> bool {
    forall|a: int, b: int| 0 <= a < b < s.len() ==> (#[trigger] s[a]).index < (#[trigger] s[b]).index
}

/// Where `offer` belongs in the ordered sequence `s`: the first position
/// whose offer does not come before it.
pub open spec fn sorted_position(s: Seq<Offer>, offer: Offer, k: int) -> int
    decreases s.len() - k,
{
    if k < 0 || k >= s.len() {
        s.len() as int
    } else if s[k].index < offer.index {
        sorted_position(s, offer, k + 1)
    } else {
        k
    }
}

/// What inserting `offer` into the ordered sequence `s` yields: `s` itself
/// if the index is already present, else `s` with `offer` at its position.
pub open spec fn sorted_insert(s: Seq<Offer>, offer: Offer) -> Seq<Offer> {
    let at = sorted_position(s, offer, 0);
    if at < s.len() && s[at].index == offer.index {
        s
    } else {
        s.insert(at, offer)
    }
}

/// What removing `offer` from the ordered sequence `s` yields: `s` with the
/// entry of that index taken out, or `s` itself if none carries it.
pub open spec fn sorted_remove(s: Seq<Offer>, offer: Offer) -> Seq<Offer> {
    let at = sorted_position(s, offer, 0);
    if at < s.len() && s[at].index == offer.index {
        s.remove(at)
    } else {
        s
    }
}

/// A book backed by an ordered set of offers: one entry per index, kept in
/// increasing order.
pub struct MapBook {
    pub offers: Vec<Offer>,
}

impl MapBook {
    /// An empty ordered book: every offer it will ever hold comes in through
    /// [`BookBuilder::add_offer`].
    pub fn new() -> (b: MapBook)
        ensures
            b.offers_seq() =~= Seq::<Offer>::empty(),
            strictly_sorted(b.offers_seq()),
    {
        MapBook { offers: Vec::new() }
    }
}

/// The searched position is in range, everything before it comes before
/// `offer`, and what it points at does not.
proof fn lemma_sorted_position(s: Seq<Offer>, offer: Offer, k: int)
    requires
        0 <= k <= s.len(),
    ensures
        k <= sorted_position(s, offer, k) <= s.len(),
        forall|a: int| k <= a < sorted_position(s, offer, k) ==> (#[trigger] s[a]).index
            < offer.index,
        sorted_position(s, offer, k) < s.len() ==> s[sorted_position(s, offer, k)].index
            >= offer.index,
    decreases s.len() - k,
{
    if k < s.len() && s[k].index < offer.index {
        lemma_sorted_position(s, offer, k + 1);
    }
}

impl BookBuilder for MapBook {
    closed spec fn offers_seq(&self) -> Seq<Offer> {
        self.offers@
    }

    /// Insertion keeps the order and ignores an index already present.
    open spec fn spec_add(&self, offer: Offer) -> Seq<Offer> {
        sorted_insert(self.offers_seq(), offer)
    }

    /// Removal takes out the entry carrying the offer's index, if any.
    open spec fn spec_remove(&self, offer: Offer) -> Seq<Offer> {
        sorted_remove(self.offers_seq(), offer)
    }

    /// Removing is always allowed: an absent index is simply not there.
    open spec fn can_remove(&self, offer: Offer) -> bool {
        true
    }

    fn add_offer(&mut self, offer: Offer)
        ensures
            final(self).offers_seq() == old(self).spec_add(offer),
    {
        let ghost s = self.offers@;
        let mut k: usize = 0;
        let n = self.offers.len();
        while k < n
            invariant
                *self == *old(self),
                s == self.offers@,
                n == s.len(),
                k <= n,
                forall|a: int| 0 <= a < k ==> (#[trigger] s[a]).index < offer.index,
                sorted_position(s, offer, 0) == sorted_position(s, offer, k as int),
            decreases n - k,
        {
            let cur = self.offers[k];
            if cur.index >= offer.index {
                proof {
                    assert(sorted_position(s, offer, k as int) == k as int);
                }
                if cur.index == offer.index {
                    return ;
                }
                self.offers.insert(k, offer);
                return ;
            }
            proof {
                assert(sorted_position(s, offer, k as int) == sorted_position(
                    s,
                    offer,
                    k as int + 1,
                ));
            }
            k += 1;
        }
        proof {
            assert(sorted_position(s, offer, n as int) == n as int);
        }
        self.offers.push(offer);
        proof {
            assert(self.offers@ =~= s.insert(n as int, offer));
        }
    }

    fn remove_offer(&mut self, offer: Offer)
        ensures
            final(self).offers_seq() == old(self).spec_remove(offer),
    {
        let ghost s = self.offers@;
        let mut k: usize = 0;
        let n = self.offers.len();
        while k < n
            invariant
                *self == *old(self),
                s == self.offers@,
                n == s.len(),
                k <= n,
                forall|a: int| 0 <= a < k ==> (#[trigger] s[a]).index < offer.index,
                sorted_position(s, offer, 0) == sorted_position(s, offer, k as int),
            decreases n - k,
        {
            let cur = self.offers[k];
            if cur.index >= offer.index {
                proof {
                    assert(sorted_position(s, offer, k as int) == k as int);
                }
                if cur.index == offer.index {
                    self.offers.remove(k);
                }
                return ;
            }
            proof {
                assert(sorted_position(s, offer, k as int) == sorted_position(
                    s,
                    offer,
                    k as int + 1,
                ));
            }
            k += 1;
        }
        proof {
            assert(sorted_position(s, offer, n as int) == n as int);
        }
    }

    fn to_vec(self) -> (v: Vec<Offer>)
        ensures
            v@ == self.offers_seq(),
    {
        self.offers
    }
}

/// The ordered book stays strictly ordered through insertions: the law the
/// ordered-set replacement owes its callers.
pub proof fn lemma_sorted_insert_sorted(s: Seq<Offer>, offer: Offer)
    requires
        strictly_sorted(s),
    ensures
        strictly_sorted(sorted_insert(s, offer)),
{
    lemma_sorted_position(s, offer, 0);
    let at = sorted_position(s, offer, 0);
    if at < s.len() && s[at].index == offer.index {
    } else {
        let r = s.insert(at, offer);
        assert forall|a: int, b: int| 0 <= a < b < r.len() implies (#[trigger] r[a]).index < (
        #[trigger] r[b]).index by {
            if a < at && b == at {
                assert(r[a] == s[a]);
            } else if a == at && at < b {
                assert(r[b] == s[b - 1]);
                assert(s[b - 1].index >= offer.index);
                if s[b - 1].index == offer.index {
                    if b - 1 == at {
                        assert(false);
                    } else {
                        assert(s[at].index >= offer.index);
                        assert(s[at].index < s[b - 1].index);
                        assert(false);
                    }
                }
            } else if a < at && b < at {
                assert(r[a] == s[a] && r[b] == s[b]);
            } else if a > at && b > at {
                assert(r[a] == s[a - 1] && r[b] == s[b - 1]);
            } else if a < at && b > at {
                assert(r[a] == s[a] && r[b] == s[b - 1]);
                assert(s[a].index < offer.index);
                assert(s[b - 1].index >= offer.index);
                if s[b - 1].index == offer.index {
                    assert(b - 1 >= at);
                    if b - 1 == at {
                        assert(false);
                    } else {
                        assert(s[at].index >= offer.index);
                        assert(s[at].index < s[b - 1].index);
                        assert(false);
                    }
                }
            }
        }
    }
}

} // verus!
