use vstd::prelude::*;

use std::collections::HashMap;
use vstd::slice::slice_to_vec;
use vstd::string::StringSliceAdditionalSpecFns;

use crate::occurrence::occurs_at;

verus! {

broadcast use vstd::std_specs::hash::group_hash_axioms;

/// The key of the trigram `a b c`.
pub open spec fn trigram_key(a: u8, b: u8, c: u8) -> u32 {
    ((a as int) * 65536 + (b as int) * 256 + (c as int)) as u32
}

/// The trigram keys of `s`, one per window of three bytes, in order.
pub open spec fn trigrams_of(s: Seq<u8>) -> Seq<u32> {
    if s.len() < 3 {
        Seq::empty()
    } else {
        Seq::new((s.len() - 2) as nat, |i: int| trigram_key(s[i], s[i + 1], s[i + 2]))
    }
}

/// `s` holds a window whose trigram key is `key`.
pub open spec fn has_trigram(s: Seq<u8>, key: u32) -> bool {
    trigrams_of(s).contains(key)
}

/// `s` is strictly increasing.
pub open spec fn strictly_increasing(s: Seq<u32>) -> bool {
    forall|a: int, b: int| 0 <= a < b < s.len() ==> s[a] < s[b]
}

/// The trigram keys of `bytes`.
fn trigrams(bytes: &[u8]) -> (r: Vec<u32>)
    ensures
        r@ == trigrams_of(bytes@),
{
    let n = bytes.len();
    let mut out: Vec<u32> = Vec::new();
    if n < 3 {
        assert(out@ =~= trigrams_of(bytes@));
        return out;
    }
    let mut i: usize = 0;
    while i <= n - 3
        invariant
            n == bytes@.len(),
            n >= 3,
            i <= n - 2,
            out@ =~= trigrams_of(bytes@).take(i as int),
        decreases n - 2 - i,
    {
        let b0 = bytes[i] as u32;
        let b1 = bytes[i + 1] as u32;
        let b2 = bytes[i + 2] as u32;
        let key = (b0 << 16) | (b1 << 8) | b2;
        assert(key == b0 * 65536 + b1 * 256 + b2) by (bit_vector)
            requires
                b0 < 256,
                b1 < 256,
                b2 < 256,
                key == (b0 << 16) | (b1 << 8) | b2,
        ;
        out.push(key);
        i += 1;
    }
    assert(trigrams_of(bytes@).take(n - 2) =~= trigrams_of(bytes@));
    out
}

#[verifier::spinoff_prover]
/// The values that both strictly increasing `a` and `b` hold, in increasing order.
fn intersect_sorted(a: &[u32], b: &[u32]) -> (r: Vec<u32>)
    requires
        strictly_increasing(a@),
        strictly_increasing(b@),
    ensures
        strictly_increasing(r@),
        forall|x: u32| r@.contains(x) <==> (a@.contains(x) && b@.contains(x)),
{
    let mut out: Vec<u32> = Vec::new();
    let mut i: usize = 0;
    let mut j: usize = 0;
    while i < a.len() && j < b.len()
        invariant
            strictly_increasing(a@),
            strictly_increasing(b@),
            i <= a@.len(),
            j <= b@.len(),
            strictly_increasing(out@),
            forall|k: int| 0 <= k < out@.len() ==> (i > 0 && out@[k] <= a@[i - 1]) && (j > 0 && out@[k] <= b@[j - 1]),
            forall|x: u32|
                out@.contains(x) <==> (exists|p: int, q: int|
                    0 <= p < i && 0 <= q < j && a@[p] == x && b@[q] == x),
            forall|p: int, q: int| 0 <= p < i && j <= q < b@.len() ==> a@[p] < b@[q],
            forall|p: int, q: int| i <= p < a@.len() && 0 <= q < j ==> b@[q] < a@[p],
        decreases a@.len() - i + b@.len() - j,
    {
        let va = a[i];
        let vb = b[j];
        if va == vb {
            let ghost old_out = out@;
            out.push(va);
            assert forall|x: u32| out@.contains(x) <==> (exists|p: int, q: int|
                0 <= p < i + 1 && 0 <= q < j + 1 && a@[p] == x && b@[q] == x) by {
                if out@.contains(x) {
                    let k = choose|k: int| 0 <= k < out@.len() && out@[k] == x;
                    if k < old_out.len() {
                        assert(old_out.contains(x));
                    } else {
                        assert(a@[i as int] == x && b@[j as int] == x);
                    }
                }
                if exists|p: int, q: int| 0 <= p < i + 1 && 0 <= q < j + 1 && a@[p] == x && b@[q] == x {
                    let (p, q) = choose|p: int, q: int|
                        0 <= p < i + 1 && 0 <= q < j + 1 && a@[p] == x && b@[q] == x;
                    if p < i && q < j {
                        assert(old_out.contains(x));
                        let k = choose|k: int| 0 <= k < old_out.len() && old_out[k] == x;
                        assert(out@[k] == x);
                    } else {
                        assert(p == i && q == j);
                        assert(out@[out@.len() - 1] == x);
                    }
                }
            }
            i += 1;
            j += 1;
        } else if va < vb {
            assert(i + 1 < a@.len() ==> a@[i as int] < a@[i + 1]);
            i += 1;
        } else {
            assert(j + 1 < b@.len() ==> b@[j as int] < b@[j + 1]);
            j += 1;
        }
    }
    assert forall|x: u32| out@.contains(x) <==> (a@.contains(x) && b@.contains(x)) by {
        if a@.contains(x) && b@.contains(x) {
            let p = choose|p: int| 0 <= p < a@.len() && a@[p] == x;
            let q = choose|q: int| 0 <= q < b@.len() && b@[q] == x;
            if p >= i {
                assert(b@[q] < a@[p] || q >= j);
            }
            if q >= j {
                assert(a@[p] < b@[q] || p >= i);
            }
        }
        if out@.contains(x) {
            let (p, q) = choose|p: int, q: int| 0 <= p < i && 0 <= q < j && a@[p] == x && b@[q] == x;
            assert(a@[p] == x && b@[q] == x);
        }
    }
    out
}

/// A trigram index over documents: for each trigram key, the ids of the documents that hold
/// it, in increasing order.
pub struct TrigramIndex {
    index: HashMap<u32, Vec<u32>>,
    documents: Vec<Vec<u8>>,
}

impl TrigramIndex {
    /// The documents, by id.
    pub closed spec fn docs(&self) -> Seq<Seq<u8>> {
        self.documents@.map_values(|d: Vec<u8>| d@)
    }

    /// Whether trigram `key` has a posting list.
    pub closed spec fn has_key(&self, key: u32) -> bool {
        self.index@.contains_key(key)
    }

    /// The posting list of trigram `key`.
    pub closed spec fn postings(&self, key: u32) -> Seq<u32> {
        if self.index@.contains_key(key) {
            self.index@[key]@
        } else {
            Seq::empty()
        }
    }

    pub closed spec fn wf(&self) -> bool {
        &&& self.documents@.len() <= u32::MAX
        &&& forall|key: u32| strictly_increasing(#[trigger] self.postings(key))
        &&& forall|key: u32, id: u32|
            #[trigger] self.postings(key).contains(id) <==> (id < self.documents@.len() && has_trigram(
                self.documents@[id as int]@,
                key,
            ))
        &&& forall|key: u32| #[trigger] self.has_key(key) ==> self.postings(key).len() > 0
    }

    /// Document `id` is posted under every key of `grams`.
    pub open spec fn in_all(&self, grams: Seq<u32>, id: u32) -> bool {
        forall|k: int| 0 <= k < grams.len() ==> #[trigger] self.postings(grams[k]).contains(id)
    }

    /// The ids of the documents that hold every trigram of `lit`; `None`, for unknown, when
    /// `lit` has fewer than three bytes.
    pub open spec fn candidates(&self, lit: Seq<u8>) -> Option<Set<u32>> {
        let grams = trigrams_of(lit);
        if grams.len() == 0 {
            None
        } else {
            Some(Set::new(|id: u32| self.in_all(grams, id)))
        }
    }

    /// An empty index.
    pub fn new() -> (r: Self)
        ensures
            r.wf(),
            r.docs().len() == 0,
    {
        let r = TrigramIndex { index: HashMap::new(), documents: Vec::new() };
        assert forall|key: u32, id: u32| #[trigger] r.postings(key).contains(id) <==> (id < r.documents@.len()
            && has_trigram(r.documents@[id as int]@, key)) by {
        }
        r
    }

    /// Adds `text` as the next document, posts it under each of its trigrams once, and returns
    /// its id.
    pub fn add(&mut self, text: &str) -> (r: u32)
        requires
            old(self).wf(),
            old(self).docs().len() < u32::MAX,
        ensures
            final(self).wf(),
            final(self).docs() == old(self).docs().push(text.spec_bytes()),
            r == old(self).docs().len(),
    {
        let doc_id = self.documents.len() as u32;
        let bytes = text.as_bytes();
        let ghost old_self = *self;
        self.documents.push(slice_to_vec(bytes));
        assert(self.docs() =~= old_self.docs().push(bytes@));
        let grams = trigrams(bytes);
        let mut i: usize = 0;
        assert(self.index@ == old_self.index@);
        assert forall|key: u32| #[trigger] self.has_key(key) implies self.postings(key).len() > 0 by {
            assert(old_self.has_key(key));
        }
        assert forall|key: u32| #[trigger] self.postings(key) == if grams@.take(0).contains(key) {
            old_self.postings(key).push(doc_id)
        } else {
            old_self.postings(key)
        } by {
            assert(old_self.postings(key) == self.postings(key));
        }
        while i < grams.len()
            invariant
                old_self.wf(),
                doc_id == old_self.documents@.len(),
                self.documents@ == old_self.documents@.push(self.documents@[doc_id as int]),
                self.documents@[doc_id as int]@ == bytes@,
                grams@ == trigrams_of(bytes@),
                i <= grams@.len(),
                forall|key: u32|
                    #[trigger] self.postings(key) == if grams@.take(i as int).contains(key) {
                        old_self.postings(key).push(doc_id)
                    } else {
                        old_self.postings(key)
                    },
                forall|key: u32| #[trigger] self.has_key(key) ==> self.postings(key).len() > 0,
            decreases grams@.len() - i,
        {
            let tri = grams[i];
            let mut list = match self.index.get(&tri) {
                Some(l) => l.clone(),
                None => Vec::new(),
            };
            assert(list@ == self.postings(tri));
            proof {
                if !grams@.take(i as int).contains(tri) {
                    assert(list@ == old_self.postings(tri));
                    if old_self.postings(tri).len() > 0 {
                        let last = old_self.postings(tri).last();
                        assert(old_self.postings(tri).contains(last));
                        assert(last < doc_id);
                    }
                }
            }
            let n = list.len();
            if n == 0 || list[n - 1] != doc_id {
                list.push(doc_id);
            }
            assert(list@ == old_self.postings(tri).push(doc_id));
            assert(list@.len() > 0);
            let ghost before = self.index@;
            let ghost prev = *self;
            let ghost lv = list@;
            self.index.insert(tri, list);
            assert(self.index@.contains_key(tri) && self.index@[tri]@ == lv);
            assert(self.postings(tri) == lv);
            assert forall|key: u32| key != tri implies #[trigger] self.index@.contains_key(key) == before.contains_key(key)
                && (before.contains_key(key) ==> self.index@[key] == before[key]) by {
            }
            assert forall|key: u32| #[trigger] self.has_key(key) implies self.postings(key).len() > 0 by {
                if key != tri {
                    assert(before.contains_key(key));
                    assert(prev.has_key(key));
                    assert(prev.postings(key) == self.postings(key));
                }
            }
            assert forall|key: u32| #[trigger] self.postings(key) == if grams@.take(i + 1).contains(key) {
                old_self.postings(key).push(doc_id)
            } else {
                old_self.postings(key)
            } by {
                assert(grams@.take(i + 1) =~= grams@.take(i as int).push(tri));
                assert(grams@.take(i + 1)[i as int] == tri);
                if key != tri {
                    assert(prev.postings(key) == self.postings(key));
                    assert(grams@.take(i + 1).contains(key) == grams@.take(i as int).contains(key));
                } else {
                    assert(grams@.take(i + 1).contains(key));
                }
            }
            i += 1;
        }
        assert(grams@.take(grams@.len() as int) =~= grams@);
        assert forall|key: u32| strictly_increasing(#[trigger] self.postings(key)) by {
            if grams@.contains(key) {
                let p = old_self.postings(key);
                assert forall|a: int| 0 <= a < p.len() implies p[a] < doc_id by {
                    assert(p.contains(p[a]));
                }
            }
        }
        assert forall|key: u32, id: u32| #[trigger] self.postings(key).contains(id) <==> (id
            < self.documents@.len() && has_trigram(self.documents@[id as int]@, key)) by {
            if id < doc_id {
                assert(self.documents@[id as int] == old_self.documents@[id as int]);
            }
            if self.postings(key).contains(id) && grams@.contains(key) {
                let p = old_self.postings(key);
                if id != doc_id {
                    let k = choose|k: int| 0 <= k < p.push(doc_id).len() && p.push(doc_id)[k] == id;
                    assert(p.contains(id));
                }
            }
            if id == doc_id && has_trigram(bytes@, key) {
                assert(self.postings(key) == old_self.postings(key).push(doc_id));
                assert(self.postings(key)[self.postings(key).len() - 1] == id);
            }
            if id < doc_id && old_self.postings(key).contains(id) && grams@.contains(key) {
                let k = choose|k: int| 0 <= k < old_self.postings(key).len() && old_self.postings(key)[k] == id;
                assert(self.postings(key)[k] == id);
            }
        }
        doc_id
    }

    /// The ids of the documents that hold every trigram of `literal`, in increasing order,
    /// the shortest posting list taken first; none at all as soon as one trigram is in no
    /// document. `None`, for unknown, when `literal` has fewer than three bytes.
    pub fn search_literal(&self, literal: &str) -> (r: Option<Vec<u32>>)
        requires
            self.wf(),
        ensures
            r is None <==> literal.spec_bytes().len() < 3,
            r matches Some(ids) ==> strictly_increasing(ids@) && forall|id: u32|
                #[trigger] ids@.contains(id) <==> ((id as int) < self.docs().len() && holds_all_trigrams(
                    self.docs()[id as int],
                    literal.spec_bytes(),
                )),
    {
        let r = self.search_postings(literal);
        proof {
            if literal.spec_bytes().len() >= 3 {
                lemma_candidates_are_documents(self, literal.spec_bytes());
                let ids = r->Some_0;
                assert forall|id: u32| #[trigger] ids@.contains(id) <==> ((id as int) < self.docs().len()
                    && holds_all_trigrams(self.docs()[id as int], literal.spec_bytes())) by {
                    assert(ids@.to_set().contains(id) <==> ids@.contains(id));
                }
            }
        }
        r
    }

    /// The intersection of the posting lists of the trigrams of `literal`.
    fn search_postings(&self, literal: &str) -> (r: Option<Vec<u32>>)
        requires
            self.wf(),
        ensures
            match r {
                Some(ids) => strictly_increasing(ids@) && self.candidates(literal.spec_bytes()) == Some(
                    ids@.to_set(),
                ),
                None => self.candidates(literal.spec_bytes()) is None,
            },
    {
        let grams = trigrams(literal.as_bytes());
        let ghost g = grams@;
        assert(g == trigrams_of(literal.spec_bytes()));
        if grams.len() == 0 {
            return None;
        }
        let mut best: usize = 0;
        let mut best_len: usize = usize::MAX;
        let mut i: usize = 0;
        while i < grams.len()
            invariant
                self.wf(),
                g == grams@,
                g == trigrams_of(literal.spec_bytes()),
                i <= g.len(),
                best < g.len(),
                forall|k: int| 0 <= k < i ==> #[trigger] self.has_key(g[k]),
            decreases g.len() - i,
        {
            match self.index.get(&grams[i]) {
                None => {
                    assert(!self.has_key(g[i as int]));
                    let empty: Vec<u32> = Vec::new();
                    assert(empty@.to_set() =~= Set::new(|id: u32| self.in_all(g, id))) by {
                        assert forall|id: u32| !#[trigger] self.in_all(g, id) by {
                            assert(self.postings(g[i as int]).len() == 0);
                            assert(!self.postings(g[i as int]).contains(id));
                        }
                    }
                    return Some(empty);
                },
                Some(list) => {
                    if list.len() < best_len {
                        best = i;
                        best_len = list.len();
                    }
                },
            }
            i += 1;
        }
        let mut result: Vec<u32> = match self.index.get(&grams[best]) {
            Some(list) => list.clone(),
            None => Vec::new(),
        };
        assert(result@ == self.postings(g[best as int]));
        i = 0;
        while i < grams.len()
            invariant
                self.wf(),
                g == grams@,
                g == trigrams_of(literal.spec_bytes()),
                i <= g.len(),
                best < g.len(),
                forall|k: int| 0 <= k < g.len() ==> #[trigger] self.has_key(g[k]),
                strictly_increasing(result@),
                forall|id: u32|
                    result@.contains(id) <==> (self.postings(g[best as int]).contains(id) && forall|k: int|
                        0 <= k < i ==> #[trigger] self.postings(g[k]).contains(id)),
            decreases g.len() - i,
        {
            if i != best {
                proof {
                    assert(self.has_key(g[i as int]));
                }
                let list = match self.index.get(&grams[i]) {
                    Some(list) => list,
                    None => {
                        return None;
                    },
                };
                assert(list@ == self.postings(g[i as int]));
                let next = intersect_sorted(result.as_slice(), list.as_slice());
                result = next;
                if result.len() == 0 {
                    assert forall|id: u32| !(self.postings(g[best as int]).contains(id) && forall|k: int|
                        0 <= k < g.len() ==> #[trigger] self.postings(g[k]).contains(id)) by {
                        if self.postings(g[best as int]).contains(id) && forall|k: int|
                            0 <= k < g.len() ==> #[trigger] self.postings(g[k]).contains(id) {
                            assert(self.postings(g[i as int]).contains(id));
                            assert(result@.contains(id));
                        }
                    }
                    assert(result@.to_set() =~= Set::new(|id: u32| self.in_all(g, id)));
                    return Some(result);
                }
            }
            i += 1;
        }
        assert(result@.to_set() =~= Set::new(|id: u32| self.in_all(g, id)));
        Some(result)
    }

    /// The document with id `doc_id`, if there is one.
    pub fn document(&self, doc_id: u32) -> (r: Option<&[u8]>)
        ensures
            match r {
                Some(d) => doc_id < self.docs().len() && d@ == self.docs()[doc_id as int],
                None => doc_id >= self.docs().len(),
            },
    {
        if (doc_id as usize) < self.documents.len() {
            Some(self.documents[doc_id as usize].as_slice())
        } else {
            None
        }
    }
}

/// Every trigram of `lit` occurs in `doc`.
pub open spec fn holds_all_trigrams(doc: Seq<u8>, lit: Seq<u8>) -> bool {
    forall|k: int| 0 <= k < trigrams_of(lit).len() ==> has_trigram(doc, #[trigger] trigrams_of(lit)[k])
}

/// What `search_literal` returns, in terms of the documents: for a literal of three bytes or
/// more, the ids of the documents that hold each of its trigrams.
pub proof fn lemma_candidates_are_documents(idx: &TrigramIndex, lit: Seq<u8>)
    requires
        idx.wf(),
        lit.len() >= 3,
    ensures
        idx.candidates(lit) == Some(
            Set::new(
                |id: u32|
                    (id as int) < idx.docs().len() && forall|k: int|
                        0 <= k < trigrams_of(lit).len() ==> has_trigram(idx.docs()[id as int], #[trigger] trigrams_of(lit)[k]),
            ),
        ),
{
    let grams = trigrams_of(lit);
    assert(grams.len() > 0);
    assert(Set::new(|id: u32| idx.in_all(grams, id)) =~= Set::new(
        |id: u32|
            (id as int) < idx.docs().len() && forall|k: int|
                0 <= k < grams.len() ==> has_trigram(idx.docs()[id as int], #[trigger] grams[k]),
    )) by {
        assert forall|id: u32| idx.in_all(grams, id) <==> ((id as int) < idx.docs().len() && forall|k: int|
            0 <= k < grams.len() ==> has_trigram(idx.docs()[id as int], #[trigger] grams[k])) by {
            assert(idx.docs().len() == idx.documents@.len());
            if idx.in_all(grams, id) {
                assert(idx.postings(grams[0]).contains(id));
                assert((id as int) < idx.documents@.len());
                assert(idx.docs()[id as int] == idx.documents@[id as int]@);
                assert forall|k: int| 0 <= k < grams.len() implies has_trigram(idx.docs()[id as int], #[trigger] grams[k]) by {
                    assert(idx.postings(grams[k]).contains(id));
                }
            }
            if (id as int) < idx.docs().len() && forall|k: int|
                0 <= k < grams.len() ==> has_trigram(idx.docs()[id as int], #[trigger] grams[k]) {
                assert(idx.docs()[id as int] == idx.documents@[id as int]@);
                assert forall|k: int| 0 <= k < grams.len() implies #[trigger] idx.postings(grams[k]).contains(id) by {
                    assert(has_trigram(idx.docs()[id as int], grams[k]));
                }
            }
        }
    }
}

/// Completeness: every document that holds a literal of three bytes or more is among the
/// documents found in the intersection of the posting lists of the literal's trigrams.
pub proof fn lemma_trigram_complete(idx: &TrigramIndex, lit: Seq<u8>, id: u32, at: int)
    requires
        idx.wf(),
        lit.len() >= 3,
        id < idx.docs().len(),
        occurs_at(idx.docs()[id as int], lit, at),
    ensures
        idx.candidates(lit) is Some,
        idx.candidates(lit)->Some_0.contains(id),
{
    let doc = idx.docs()[id as int];
    let grams = trigrams_of(lit);
    assert(idx.documents@[id as int]@ == doc);
    assert forall|k: int| 0 <= k < grams.len() implies #[trigger] idx.postings(grams[k]).contains(id) by {
        assert(doc[at + k] == lit[k]);
        assert(doc[at + (k + 1)] == lit[k + 1]);
        assert(doc[at + (k + 2)] == lit[k + 2]);
        assert(trigrams_of(doc)[at + k] == grams[k]);
        assert(has_trigram(doc, grams[k]));
    }
    assert forall|k: int| 0 <= k < grams.len() implies #[trigger] idx.has_key(grams[k]) by {
        assert(idx.postings(grams[k]).contains(id));
    }
}

} // verus!
