use vstd::prelude::*;
use crate::ids::{bytes_eq, copy_bytes, views};

verus! {

broadcast use vstd::seq_lib::group_seq_properties;

/// A set of pairs of byte strings, such as (topic, peer) or (address, peer).
pub struct PairSet {
    items: Vec<(Vec<u8>, Vec<u8>)>,
}

/// The pairs held in a list.
pub open spec fn pair_views(list: Seq<(Vec<u8>, Vec<u8>)>) -> Seq<(Seq<u8>, Seq<u8>)> {
    list.map_values(|m: (Vec<u8>, Vec<u8>)| (m.0@, m.1@))
}

/// Pushing an element not yet present keeps a sequence free of duplicates.
pub proof fn lemma_push_no_duplicates<A>(s: Seq<A>, x: A)
    requires
        s.no_duplicates(),
        !s.contains(x),
    ensures
        s.push(x).no_duplicates(),
{
    assert forall|i: int, j: int| 0 <= i < s.push(x).len() && 0 <= j < s.push(x).len() && i != j
        implies s.push(x)[i] != s.push(x)[j] by {
        if i == s.len() as int {
            assert(s[j] == s.push(x)[j]);
        } else if j == s.len() as int {
            assert(s[i] == s.push(x)[i]);
        }
    }
}

impl View for PairSet {
    type V = Seq<(Seq<u8>, Seq<u8>)>;

    closed spec fn view(&self) -> Seq<(Seq<u8>, Seq<u8>)> {
        pair_views(self.items@)
    }
}

impl PairSet {
    pub fn new() -> (r: PairSet)
        ensures
            r@ == Seq::<(Seq<u8>, Seq<u8>)>::empty(),
            r@.no_duplicates(),
    {
        let r = PairSet { items: Vec::new() };
        assert(r@ =~= Seq::<(Seq<u8>, Seq<u8>)>::empty());
        r
    }

    pub fn contains(&self, a: &Vec<u8>, b: &Vec<u8>) -> (r: bool)
        ensures
            r == self@.contains((a@, b@)),
    {
        let mut i: usize = 0;
        while i < self.items.len()
            invariant
                i <= self.items@.len(),
                forall|j: int| 0 <= j < i ==> self@[j] != (a@, b@),
            decreases self.items@.len() - i,
        {
            if bytes_eq(&self.items[i].0, a) && bytes_eq(&self.items[i].1, b) {
                assert(self@[i as int] == (a@, b@));
                return true;
            }
            i = i + 1;
        }
        false
    }

    /// Adds the pair `(a, b)` unless it is already there.
    pub fn insert(&mut self, a: &Vec<u8>, b: &Vec<u8>)
        ensures
            final(self)@ == (if old(self)@.contains((a@, b@)) {
                old(self)@
            } else {
                old(self)@.push((a@, b@))
            }),
            old(self)@.no_duplicates() ==> final(self)@.no_duplicates(),
    {
        if !self.contains(a, b) {
            self.items.push((copy_bytes(a), copy_bytes(b)));
            assert(self@ =~= old(self)@.push((a@, b@)));
            proof {
                if old(self)@.no_duplicates() {
                    lemma_push_no_duplicates(old(self)@, (a@, b@));
                }
            }
        }
    }

    /// The second parts of the pairs whose first part is `a`, leaving out
    /// `except` when given.
    pub fn seconds_of(&self, a: &Vec<u8>, except: Option<&Vec<u8>>) -> (r: Vec<Vec<u8>>)
        requires
            self@.no_duplicates(),
        ensures
            views(r@).no_duplicates(),
            forall|p: Seq<u8>| #[trigger]
                views(r@).contains(p) <==> self@.contains((a@, p)) && (except is None || p
                    != except->0@),
    {
        let mut r: Vec<Vec<u8>> = Vec::new();
        let mut i: usize = 0;
        while i < self.items.len()
            invariant
                i <= self.items@.len(),
                forall|p: Seq<u8>| #[trigger]
                    views(r@).contains(p) <==> self@.take(i as int).contains((a@, p)) && (
                    except is None || p != except->0@),
            self@.no_duplicates(),
            views(r@).no_duplicates(),
        decreases self.items@.len() - i,
        {
            let ghost prev = r@;
            let keep = bytes_eq(&self.items[i].0, a) && match except {
                Some(e) => !bytes_eq(&self.items[i].1, e),
                None => true,
            };
            if keep {
                r.push(copy_bytes(&self.items[i].1));
                assert(views(r@) =~= views(prev).push(self@[i as int].1));
                proof {
                    let p = self@[i as int].1;
                    if views(prev).contains(p) {
                        assert(self@.take(i as int).contains((a@, p)));
                        let j = choose|j: int|
                            0 <= j < self@.take(i as int).len() && self@.take(i as int)[j] == (a@, p);
                        assert(self@[j] == self@[i as int]);
                    }
                    lemma_push_no_duplicates(views(prev), p);
                }
            }
            assert(self@.take(i + 1) =~= self@.take(i as int).push(self@[i as int]));
            i = i + 1;
        }
        assert(self@.take(i as int) =~= self@);
        r
    }

    /// Drops every pair whose second part is `b`.
    pub fn remove_second(&mut self, b: &Vec<u8>)
        ensures
            forall|x: Seq<u8>, y: Seq<u8>| #[trigger]
                final(self)@.contains((x, y)) <==> old(self)@.contains((x, y)) && y != b@,
            old(self)@.no_duplicates() ==> final(self)@.no_duplicates(),
    {
        let mut kept: Vec<(Vec<u8>, Vec<u8>)> = Vec::new();
        let mut i: usize = 0;
        while i < self.items.len()
            invariant
                i <= self.items@.len(),
                self@ == old(self)@,
                forall|x: Seq<u8>, y: Seq<u8>| #[trigger]
                    pair_views(kept@).contains((x, y)) <==> self@.take(i as int).contains((x, y))
                        && y != b@,
            old(self)@.no_duplicates() ==> pair_views(kept@).no_duplicates(),
            decreases self.items@.len() - i,
        {
            let ghost prev = kept@;
            if !bytes_eq(&self.items[i].1, b) {
                kept.push((copy_bytes(&self.items[i].0), copy_bytes(&self.items[i].1)));
                assert(pair_views(kept@) =~= pair_views(prev).push(self@[i as int]));
                proof {
                    if old(self)@.no_duplicates() {
                        let e = self@[i as int];
                        if pair_views(prev).contains(e) {
                            assert(self@.take(i as int).contains((e.0, e.1)));
                            let j = choose|j: int|
                                0 <= j < self@.take(i as int).len() && self@.take(i as int)[j] == e;
                            assert(self@[j] == self@[i as int]);
                        }
                        lemma_push_no_duplicates(pair_views(prev), e);
                    }
                }
            }
            assert(self@.take(i + 1) =~= self@.take(i as int).push(self@[i as int]));
            i = i + 1;
        }
        assert(self@.take(i as int) =~= self@);
        self.items = kept;
    }
}

} // verus!
