//! Lazy concatenation and streaming deduplication.
//!
//! A `Producer` hands out its items one per call.  `ConcatIterator` chains an
//! ordered list of producers: all items of the first, then of the second, and
//! so on, pulling one item at a time and never asking a producer for more
//! than the caller consumes.  `NodeaggIterator` drives a `ConcatIterator` of
//! names through a first-occurrence-wins filter, so each distinct name comes
//! out exactly once, in the order it was first produced; only the set of
//! names already emitted is retained.

use vstd::prelude::*;
use crate::expr::{str_views, BaseCursor};

verus! {

/// A source of items, consumed one `next` call at a time.
pub trait Producer: Sized {
    type Item: View;

    /// The views of the items not yet produced, in order.
    spec fn remaining(&self) -> Seq<<Self::Item as View>::V>;

    /// Produces the next item, or `None` once the source is exhausted.
    fn next(&mut self) -> (r: Option<Self::Item>)
        ensures
            old(self).remaining().len() == 0 ==> r is None && final(self).remaining() == old(
                self,
            ).remaining(),
            old(self).remaining().len() > 0 ==> match r {
                Some(v) => v@ == old(self).remaining().first() && final(self).remaining() == old(
                    self,
                ).remaining().drop_first(),
                None => false,
            },
    ;
}

/// Chains an ordered list of producers, pulling from each in turn.
pub struct ConcatIterator<P: Producer> {
    producers: Vec<P>,
}

impl<P: Producer> ConcatIterator<P> {
    /// The item views not yet produced, in the order they will come.
    pub closed spec fn remaining(&self) -> Seq<<P::Item as View>::V> {
        self.producers@.map_values(|p: P| p.remaining()).flatten()
    }

    /// Takes ownership of the producers.
    pub fn new(producers: Vec<P>) -> (r: Self)
        ensures
            r.remaining() == producers@.map_values(|p: P| p.remaining()).flatten(),
    {
        ConcatIterator { producers }
    }

    /// Produces the next item, advancing the current producer by one step,
    /// or `None` once every producer is exhausted.
    pub fn next(&mut self) -> (r: Option<P::Item>)
        ensures
            old(self).remaining().len() == 0 ==> r is None && final(self).remaining() == old(
                self,
            ).remaining(),
            old(self).remaining().len() > 0 ==> match r {
                Some(v) => v@ == old(self).remaining().first() && final(self).remaining() == old(
                    self,
                ).remaining().drop_first(),
                None => false,
            },
    {
        let ghost orig = self.remaining();
        loop
            invariant
                self.remaining() == orig,
                orig == old(self).remaining(),
            decreases self.producers@.len(),
        {
            if self.producers.len() == 0 {
                proof {
                    assert(self.producers@.map_values(|p: P| p.remaining())
                        =~= Seq::<Seq<<P::Item as View>::V>>::empty());
                    assert(self.remaining().len() == 0);
                }
                return None;
            }
            let ghost prev_map = self.producers@.map_values(|p: P| p.remaining());
            let mut first = self.producers.remove(0);
            proof {
                assert(self.producers@.map_values(|p: P| p.remaining()) =~= prev_map.drop_first());
                assert(prev_map.first() == first.remaining());
            }
            let ghost first_rem = first.remaining();
            match first.next() {
                None => {
                    proof {
                        assert(orig =~= first_rem + self.remaining());
                    }
                },
                Some(v) => {
                    let ghost vv = v@;
                    let ghost new_first_rem = first.remaining();
                    self.producers.insert(0, first);
                    proof {
                        assert(self.producers@.map_values(|p2: P| p2.remaining())
                            =~= prev_map.drop_first().insert(0, new_first_rem));
                        assert(self.producers@.map_values(|p2: P| p2.remaining()).drop_first()
                            =~= prev_map.drop_first());
                        assert(self.remaining() =~= new_first_rem
                            + prev_map.drop_first().flatten());
                        assert(orig =~= (new_first_rem.insert(0, vv))
                            + prev_map.drop_first().flatten());
                        assert(orig.first() == vv);
                        assert(self.remaining() =~= orig.drop_first());
                    }
                    return Some(v);
                },
            }
        }
    }
}

/// The first-occurrence-wins filter: the strings of `s` in order, keeping
/// each one only the first time it appears and only if it is not in `seen`.
pub open spec fn dedup(s: Seq<Seq<char>>, seen: Seq<Seq<char>>) -> Seq<Seq<char>>
    decreases s.len(),
{
    if s.len() == 0 {
        Seq::empty()
    } else if seen.contains(s.first()) {
        dedup(s.drop_first(), seen)
    } else {
        seq![s.first()] + dedup(s.drop_first(), seen.push(s.first()))
    }
}

/// The filter keeps no duplicate: its output strings are pairwise distinct,
/// and none of them is a string it was told was already seen.
pub proof fn lemma_dedup_distinct(s: Seq<Seq<char>>, seen: Seq<Seq<char>>)
    ensures
        forall|i: int, j: int|
            0 <= i < j < dedup(s, seen).len() ==> dedup(s, seen)[i] != dedup(s, seen)[j],
        forall|i: int| 0 <= i < dedup(s, seen).len() ==> !seen.contains(#[trigger] dedup(s, seen)[i]),
    decreases s.len(),
{
    if s.len() == 0 {
    } else if seen.contains(s.first()) {
        lemma_dedup_distinct(s.drop_first(), seen);
        let d = dedup(s, seen);
        let d2 = dedup(s.drop_first(), seen);
        assert(d == d2);
        assert forall|i: int, j: int| 0 <= i < j < d.len() implies d[i] != d[j] by {
            assert(d[i] == d2[i] && d[j] == d2[j]);
        }
        assert forall|i: int| 0 <= i < d.len() implies !seen.contains(d[i]) by {
            assert(d[i] == d2[i]);
        }
    } else {
        let f = s.first();
        let seen2 = seen.push(f);
        lemma_dedup_distinct(s.drop_first(), seen2);
        let d = dedup(s, seen);
        let d2 = dedup(s.drop_first(), seen2);
        assert(d == seq![f] + d2);
        assert(seen2[seen.len() as int] == f);
        assert(seen2.contains(f));
        assert forall|i: int, j: int| 0 <= i < j < d.len() implies d[i] != d[j] by {
            if i == 0 {
                assert(d[j] == d2[j - 1]);
                assert(!seen2.contains(d2[j - 1]));
            } else {
                assert(d[i] == d2[i - 1] && d[j] == d2[j - 1]);
            }
        }
        assert forall|i: int| 0 <= i < d.len() implies !seen.contains(d[i]) by {
            if i > 0 {
                assert(d[i] == d2[i - 1]);
                assert(!seen2.contains(d2[i - 1]));
                if seen.contains(d[i]) {
                    let k = choose|k: int| 0 <= k < seen.len() && seen[k] == d[i];
                    assert(seen2[k] == d[i]);
                    assert(seen2.contains(d[i]));
                }
            }
        }
    }
}

fn contains_string(v: &Vec<String>, x: &String) -> (b: bool)
    ensures
        b == str_views(v@).contains(x@),
{
    let mut i: usize = 0;
    let n = v.len();
    while i < n
        invariant
            0 <= i <= v@.len(),
            n == v@.len(),
            forall|k: int| 0 <= k < i ==> v@[k]@ != x@,
        decreases v@.len() - i,
    {
        if v[i].eq(x) {
            proof {
                assert(str_views(v@)[i as int] == x@);
            }
            return true;
        }
        i = i + 1;
    }
    proof {
        assert forall|k: int| 0 <= k < str_views(v@).len() implies str_views(v@)[k] != x@ by {
            assert(str_views(v@)[k] == v@[k]@);
        }
    }
    false
}

/// Streams the distinct names of an expansion, in the order each name is
/// first produced; the deduplication state lives in the iterator, grows only
/// with distinct names, and is fresh for every new iterator, so each pass
/// replays the same sequence.
pub struct NodeaggIterator {
    inner: ConcatIterator<BaseCursor>,
    seen: Vec<String>,
}

impl NodeaggIterator {
    /// The names still to come: the pending names, filtered by first
    /// occurrence against what was already handed out.
    pub closed spec fn future(&self) -> Seq<Seq<char>> {
        dedup(self.inner.remaining(), str_views(self.seen@))
    }

    /// Starts a fresh pass over the producers' names.
    pub fn new(producers: Vec<BaseCursor>) -> (r: Self)
        ensures
            r.future() == dedup(
                producers@.map_values(|p: BaseCursor| p.remaining()).flatten(),
                Seq::empty(),
            ),
    {
        let r = NodeaggIterator { inner: ConcatIterator::new(producers), seen: Vec::new() };
        proof {
            assert(str_views(r.seen@) =~= Seq::<Seq<char>>::empty());
        }
        r
    }

    /// Produces the next name not yet handed out in this pass, or `None`
    /// when every remaining name is a duplicate or the producers are done.
    pub fn next(&mut self) -> (r: Option<String>)
        ensures
            old(self).future().len() == 0 ==> r is None && final(self).future() == old(
                self,
            ).future(),
            old(self).future().len() > 0 ==> match r {
                Some(v) => v@ == old(self).future().first() && final(self).future() == old(
                    self,
                ).future().drop_first(),
                None => false,
            },
    {
        let ghost orig = self.future();
        loop
            invariant
                self.future() == orig,
                orig == old(self).future(),
            decreases self.inner.remaining().len(),
        {
            let ghost prev_rem = self.inner.remaining();
            match self.inner.next() {
                None => {
                    return None;
                },
                Some(v) => {
                    proof {
                        assert(self.inner.remaining() == prev_rem.drop_first());
                        assert(prev_rem.first() == v@);
                    }
                    if contains_string(&self.seen, &v) {
                        // the filter swallows this name; the future is unchanged
                    } else {
                        let ghost prev_seen = str_views(self.seen@);
                        self.seen.push(v.clone());
                        proof {
                            assert(str_views(self.seen@) =~= prev_seen.push(v@));
                            assert(orig == seq![v@] + dedup(prev_rem.drop_first(), prev_seen.push(
                                v@,
                            )));
                            assert(orig.first() == v@);
                            assert(self.future() =~= orig.drop_first());
                        }
                        return Some(v);
                    }
                },
            }
        }
    }
}

} // verus!
