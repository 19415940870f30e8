//! The facts of a roster by their content addresses.
use vstd::prelude::*;

use crate::octets::{be_value, bytes_eq, bytes_less, lemma_be_value_injective};
use crate::protocol::fact::{fact_fields_ok, fact_id_of, FactId};
use crate::protocol::signed::{signed_views, SignedFact, SignedView};

verus! {

/// Ids in ascending order, none twice.
pub open spec fn ascending(s: Seq<Seq<u8>>) -> bool {
    forall|i: int, j: int| 0 <= i < j < s.len() ==> be_value(#[trigger] s[i]) < be_value(#[trigger] s[j])
}

/// The ids of a list of facts.
pub open spec fn ids_of(s: Seq<SignedView>) -> Seq<Seq<u8>> {
    Seq::new(s.len(), |i: int| fact_id_of(s[i].fact))
}

/// The list holds exactly the facts of the map, in ascending order of their ids.
pub open spec fn lists(m: Map<Seq<u8>, SignedView>, s: Seq<SignedView>) -> bool {
    &&& ascending(ids_of(s))
    &&& forall|i: int|
        0 <= i < s.len() ==> #[trigger] m.dom().contains(ids_of(s)[i]) && m[ids_of(s)[i]] == s[i]
    &&& forall|id: Seq<u8>| #[trigger] m.dom().contains(id) ==> ids_of(s).contains(id)
}

/// Facts in ascending order of their ids.
#[derive(Debug)]
pub struct FactStore {
    ids: Vec<FactId>,
    facts: Vec<SignedFact>,
}

impl FactStore {
    /// The facts in order.
    pub closed spec fn list(&self) -> Seq<SignedView> {
        signed_views(self.facts@)
    }

    /// The facts by id.
    pub open spec fn map(&self) -> Map<Seq<u8>, SignedView> {
        Map::new(
            |id: Seq<u8>| ids_of(self.list()).contains(id),
            |id: Seq<u8>| self.list()[ids_of(self.list()).index_of(id)],
        )
    }

    pub closed spec fn wf(&self) -> bool {
        &&& self.ids@.len() == self.facts@.len()
        &&& forall|i: int|
            0 <= i < self.ids@.len() ==> #[trigger] self.ids@[i]@ == fact_id_of(
                self.facts@[i]@.fact,
            )
        &&& ascending(ids_of(self.list()))
        &&& forall|i: int| 0 <= i < self.list().len() ==> fact_fields_ok(
            (#[trigger] self.list()[i]).fact,
        )
    }

    /// The list is that of the map, and the ids, keys and signatures of its facts are such.
    pub proof fn lemma_lists(&self)
        requires
            self.wf(),
        ensures
            lists(self.map(), self.list()),
            ascending(ids_of(self.list())),
            forall|i: int| 0 <= i < self.list().len() ==> (#[trigger] ids_of(self.list())[i]).len() == 32,
            forall|i: int|
                0 <= i < self.list().len() ==> fact_fields_ok((#[trigger] self.list()[i]).fact)
                    && self.list()[i].signature.len() == 64,
            forall|i: int|
                0 <= i < self.list().len() ==> #[trigger] self.map().dom().contains(
                    ids_of(self.list())[i],
                ) && self.map()[ids_of(self.list())[i]] == self.list()[i],
    {
        let ids = ids_of(self.list());
        assert forall|i: int| 0 <= i < self.list().len() implies (#[trigger] ids[i]).len() == 32
            && self.map().dom().contains(ids[i]) && self.map()[ids[i]] == self.list()[i] by {
            assert(self.ids@[i]@ == ids[i]);
            assert(ids.contains(ids[i]));
            let k = ids.index_of(ids[i]);
            if k < i {
                assert(be_value(ids[k]) < be_value(ids[i]));
            } else if i < k {
                assert(be_value(ids[i]) < be_value(ids[k]));
            }
        }
    }

    /// The map has as many facts as the list.
    pub proof fn lemma_count(&self)
        requires
            self.wf(),
        ensures
            self.map().dom().finite(),
            self.map().len() == self.list().len(),
    {
        let ids = ids_of(self.list());
        assert forall|i: int, j: int| 0 <= i < ids.len() && 0 <= j < ids.len() && i != j implies ids[i]
            != ids[j] by {
            if i < j {
                assert(be_value(ids[i]) < be_value(ids[j]));
            } else {
                assert(be_value(ids[j]) < be_value(ids[i]));
            }
        }
        assert(self.map().dom() =~= ids.to_set());
        ids.unique_seq_to_set();
        vstd::seq_lib::seq_to_set_is_finite(ids);
    }

    pub fn new() -> (r: Self)
        ensures
            r.wf(),
            r.list() == Seq::<SignedView>::empty(),
            r.map() == Map::<Seq<u8>, SignedView>::empty(),
    {
        let r = FactStore { ids: Vec::new(), facts: Vec::new() };
        assert(r.list() =~= Seq::<SignedView>::empty());
        assert(r.map() =~= Map::<Seq<u8>, SignedView>::empty());
        r
    }

    pub fn len(&self) -> (r: usize)
        ensures
            r == self.list().len(),
    {
        self.facts.len()
    }

    /// The facts in order.
    pub fn facts(&self) -> (r: &[SignedFact])
        ensures
            signed_views(r@) == self.list(),
    {
        self.facts.as_slice()
    }

    pub fn at(&self, i: usize) -> (r: &SignedFact)
        requires
            i < self.list().len(),
        ensures
            r@ == self.list()[i as int],
    {
        &self.facts[i]
    }

    pub fn id_at(&self, i: usize) -> (r: &FactId)
        requires
            self.wf(),
            i < self.list().len(),
        ensures
            r@ == ids_of(self.list())[i as int],
    {
        assert(self.ids@[i as int]@ == fact_id_of(self.facts@[i as int]@.fact));
        &self.ids[i]
    }

    /// The place of the first id that is not before `id`.
    fn place_of(&self, id: &FactId) -> (r: usize)
        requires
            self.wf(),
        ensures
            r <= self.list().len(),
            forall|i: int| 0 <= i < r ==> be_value(#[trigger] ids_of(self.list())[i]) < be_value(id@),
            forall|i: int|
                r <= i < self.list().len() ==> be_value(#[trigger] ids_of(self.list())[i])
                    >= be_value(id@),
    {
        let ghost ids = ids_of(self.list());
        let mut lo: usize = 0;
        let mut hi: usize = self.ids.len();
        while lo < hi
            invariant
                lo <= hi <= ids.len(),
                ids == ids_of(self.list()),
                ids.len() == self.ids@.len(),
                self.wf(),
                forall|i: int| 0 <= i < lo ==> be_value(#[trigger] ids[i]) < be_value(id@),
                forall|i: int| hi <= i < ids.len() ==> be_value(#[trigger] ids[i]) >= be_value(id@),
            decreases hi - lo,
        {
            let mid: usize = lo + (hi - lo) / 2;
            assert(self.ids@[mid as int]@ == ids[mid as int]);
            if bytes_less(&self.ids[mid], id) {
                assert forall|i: int| 0 <= i < mid + 1 implies be_value(#[trigger] ids[i])
                    < be_value(id@) by {
                    if i < mid {
                        assert(be_value(ids[i]) < be_value(ids[mid as int]));
                    }
                }
                lo = mid + 1;
            } else {
                assert forall|i: int| mid <= i < ids.len() implies be_value(#[trigger] ids[i])
                    >= be_value(id@) by {
                    if mid < i {
                        assert(be_value(ids[mid as int]) < be_value(ids[i]));
                    }
                }
                hi = mid;
            }
        }
        lo
    }

    /// The fact of an id.
    pub fn get(&self, id: &FactId) -> (r: Option<&SignedFact>)
        requires
            self.wf(),
        ensures
            match r {
                Some(f) => self.map().dom().contains(id@) && f@ == self.map()[id@],
                None => !self.map().dom().contains(id@),
            },
    {
        let i = self.place_of(id);
        let ghost ids = ids_of(self.list());
        proof {
            self.lemma_lists();
        }
        if i < self.ids.len() && bytes_eq(&self.ids[i], id) {
            assert(self.ids@[i as int]@ == ids[i as int]);
            Some(&self.facts[i])
        } else {
            proof {
                if ids.contains(id@) {
                    let k = choose|k: int| 0 <= k < ids.len() && ids[k] == id@;
                    assert(be_value(ids[k]) == be_value(id@));
                    assert(k >= i);
                    if k > i {
                        assert(be_value(ids[i as int]) < be_value(ids[k]));
                    }
                    assert(self.ids@[i as int]@ == ids[i as int]);
                }
            }
            None
        }
    }

    /// Adds a fact that is not there yet.
    pub fn insert(&mut self, id: FactId, fact: SignedFact)
        requires
            old(self).wf(),
            id@ == fact_id_of(fact@.fact),
            !old(self).map().dom().contains(id@),
        ensures
            final(self).wf(),
            final(self).map() == old(self).map().insert(id@, fact@),
            final(self).list().len() == old(self).list().len() + 1,
    {
        let i = self.place_of(&id);
        let ghost before = self.list();
        let ghost ids = ids_of(before);
        let ghost x = fact@;
        proof {
            self.lemma_lists();
            use_type_invariant(&fact.fact.issuer);
            use_type_invariant(&fact.fact.subject);
            assert(fact_fields_ok(x.fact));
        }
        self.ids.insert(i, id);
        self.facts.insert(i, fact);
        proof {
            let after = self.list();
            assert(after =~= before.insert(i as int, x));
            assert(ids_of(after) =~= ids.insert(i as int, id@));
            assert forall|k: int| 0 <= k < after.len() implies fact_fields_ok(
                (#[trigger] after[k]).fact,
            ) by {
                if k < i {
                    assert(after[k] == before[k]);
                } else if k > i {
                    assert(after[k] == before[k - 1]);
                }
            }
            let n = ids_of(after);
            assert forall|k: int| 0 <= k < self.ids@.len() implies #[trigger] self.ids@[k]@
                == fact_id_of(self.facts@[k]@.fact) by {
                if k < i {
                    assert(old(self).ids@[k]@ == fact_id_of(old(self).facts@[k]@.fact));
                } else if k > i {
                    assert(old(self).ids@[k - 1]@ == fact_id_of(old(self).facts@[k - 1]@.fact));
                }
            }
            assert forall|a: int| i <= a < ids.len() implies be_value(id@) < be_value(
                #[trigger] ids[a],
            ) by {
                if be_value(ids[a]) == be_value(id@) {
                    lemma_be_value_injective(ids[a], id@);
                    assert(ids.contains(ids[a]));
                }
            }
            assert(ascending(n)) by {
                assert forall|a: int, b: int| 0 <= a < b < n.len() implies be_value(#[trigger] n[a])
                    < be_value(#[trigger] n[b]) by {
                    if a < i && b < i {
                        assert(be_value(ids[a]) < be_value(ids[b]));
                    } else if a < i && b > i {
                        assert(be_value(ids[a]) < be_value(ids[b - 1]));
                    } else if a > i {
                        assert(be_value(ids[a - 1]) < be_value(ids[b - 1]));
                    } else if a == i {
                        assert(be_value(id@) < be_value(ids[b - 1]));
                    } else {
                        assert(be_value(ids[a]) < be_value(id@));
                    }
                }
            }
            self.lemma_lists();
            let m = old(self).map().insert(id@, x);
            assert forall|k: Seq<u8>| self.map().dom().contains(k) <==> m.dom().contains(k) by {
                if n.contains(k) {
                    let a = choose|a: int| 0 <= a < n.len() && n[a] == k;
                    if a < i {
                        assert(ids[a] == k && ids.contains(k));
                    } else if a > i {
                        assert(ids[a - 1] == k && ids.contains(k));
                    }
                }
                if ids.contains(k) {
                    let a = choose|a: int| 0 <= a < ids.len() && ids[a] == k;
                    if a < i {
                        assert(n[a] == k);
                    } else {
                        assert(n[a + 1] == k);
                    }
                }
                if k == id@ {
                    assert(n[i as int] == k);
                }
            }
            assert forall|k: Seq<u8>| self.map().dom().contains(k) implies self.map()[k] == m[k] by {
                let a = choose|a: int| 0 <= a < n.len() && n[a] == k;
                assert(self.map()[n[a]] == after[a]);
                if a < i {
                    assert(ids[a] == k);
                    assert(old(self).map()[ids[a]] == before[a]);
                    assert(be_value(ids[a]) < be_value(id@));
                } else if a > i {
                    assert(ids[a - 1] == k);
                    assert(old(self).map()[ids[a - 1]] == before[a - 1]);
                    assert(be_value(id@) < be_value(ids[a - 1]));
                }
            }
            assert(self.map() =~= m);
        }
    }
}

/// Ascending sequences of the same ids are the same sequence.
pub proof fn lemma_ascending_unique(a: Seq<Seq<u8>>, b: Seq<Seq<u8>>)
    requires
        ascending(a),
        ascending(b),
        forall|k: Seq<u8>| #[trigger] a.contains(k) <==> b.contains(k),
    ensures
        a == b,
{
    lemma_ascending_prefix(a, b, a.len());
    lemma_ascending_prefix(b, a, b.len());
    assert(a =~= b);
}

/// Of two ascending sequences of the same ids, the first `n` of one are those of the other.
proof fn lemma_ascending_prefix(a: Seq<Seq<u8>>, b: Seq<Seq<u8>>, n: nat)
    requires
        ascending(a),
        ascending(b),
        forall|k: Seq<u8>| #[trigger] a.contains(k) <==> b.contains(k),
        n <= a.len(),
    ensures
        n <= b.len(),
        forall|i: int| 0 <= i < n ==> a[i] == b[i],
    decreases n,
{
    if n > 0 {
        let k = n - 1;
        lemma_ascending_prefix(a, b, k as nat);
        assert(a.contains(a[k]));
        let j = choose|j: int| 0 <= j < b.len() && b[j] == a[k];
        if j < k {
            assert(be_value(a[j]) < be_value(a[k]));
        }
        if j > k {
            // what stands at `k` in the other sequence is smaller, so it stands before in this one
            assert(b.contains(b[k]));
            assert(a.contains(b[k]));
            let i = choose|i: int| 0 <= i < a.len() && a[i] == b[k];
            assert(be_value(b[k]) < be_value(b[j]));
            if i > k {
                assert(be_value(a[k]) < be_value(a[i]));
            } else if i < k {
                assert(be_value(b[i]) < be_value(b[k]));
            }
        }
    }
}

/// The facts of a roster have one list.
pub proof fn facts_have_one_list(m: Map<Seq<u8>, SignedView>, s: Seq<SignedView>, t: Seq<SignedView>)
    requires
        lists(m, s),
        lists(m, t),
    ensures
        s == t,
{
    let a = ids_of(s);
    let b = ids_of(t);
    assert forall|k: Seq<u8>| #[trigger] a.contains(k) <==> b.contains(k) by {
        if a.contains(k) {
            let i = choose|i: int| 0 <= i < a.len() && a[i] == k;
            assert(m.dom().contains(ids_of(s)[i]));
        }
        if b.contains(k) {
            let i = choose|i: int| 0 <= i < b.len() && b[i] == k;
            assert(m.dom().contains(ids_of(t)[i]));
        }
    }
    lemma_ascending_unique(a, b);
    assert forall|i: int| 0 <= i < s.len() implies s[i] == t[i] by {
        assert(m.dom().contains(ids_of(s)[i]));
        assert(m.dom().contains(ids_of(t)[i]));
    }
    assert(s.len() == t.len()) by {
        assert(a.len() == s.len() && b.len() == t.len());
    }
    assert(s =~= t);
}

} // verus!
