//! The hub: the registry of active sessions and the fan-out of messages.

use crate::entropy::draw_usize;
use crate::message::ChatMessage;
use crate::probe::{first_free, lemma_full_prefix_len, probe};
use rand::rngs::ThreadRng;
use std::collections::HashMap;
use vstd::prelude::*;
use vstd::std_specs::iter::IteratorSpec;

verus! {

broadcast use vstd::std_specs::hash::group_hash_axioms;

/// The identifiers of a list of entries, in its order.
pub open spec fn ids_of<H>(s: Seq<(usize, &H)>) -> Seq<usize> {
    s.map_values(|e: (usize, &H)| e.0)
}

/// `s` lists each entry of `m` exactly once, and nothing else.
pub open spec fn lists_exactly<H>(m: Map<usize, H>, s: Seq<(usize, &H)>) -> bool {
    &&& ids_of(s).no_duplicates()
    &&& ids_of(s).to_set() == m.dom()
    &&& forall|i: int| 0 <= i < s.len() ==> m[#[trigger] s[i].0] == *s[i].1
}

/// The hub. Its view maps each active client identifier to the handle
/// through which that client is reached.
pub struct ChatManager<H> {
    sessions: HashMap<usize, H>,
    rng: ThreadRng,
}

impl<H> View for ChatManager<H> {
    type V = Map<usize, H>;

    closed spec fn view(&self) -> Map<usize, H> {
        self.sessions@
    }
}

impl<H> ChatManager<H> {
    /// A hub with no session.
    pub fn new() -> (r: ChatManager<H>)
        ensures
            r@ == Map::<usize, H>::empty(),
    {
        ChatManager { sessions: HashMap::new(), rng: rand::thread_rng() }
    }

    /// The set of active identifiers is finite.
    pub proof fn lemma_finite(&self)
        ensures
            self@.dom().finite(),
    {
    }

    /// The number of active sessions.
    pub fn len(&self) -> (r: usize)
        ensures
            r == self@.len(),
    {
        self.sessions.len()
    }

    /// Whether `id` is active.
    pub fn is_registered(&self, id: usize) -> (r: bool)
        ensures
            r == self@.contains_key(id),
    {
        self.sessions.contains_key(&id)
    }

    /// The first identifier, from `candidate` on and wrapping around, that no
    /// active session holds. One always exists: a map that `usize` counts
    /// cannot hold every `usize`.
    fn free_id(&self, candidate: usize) -> (id: usize)
        ensures
            first_free(self@.dom(), candidate, id),
    {
        let n = self.sessions.len();
        let mut k: usize = 0;
        loop
            invariant
                k <= n,
                n == self@.len(),
                self@.dom().finite(),
                forall|i: nat| i < k ==> self@.contains_key(#[trigger] probe(candidate, i)),
            decreases n - k,
        {
            let id = if k <= usize::MAX - candidate {
                candidate + k
            } else {
                k - (usize::MAX - candidate) - 1
            };
            assert(id == probe(candidate, k as nat));
            if !self.sessions.contains_key(&id) {
                return id;
            }
            proof {
                if k == n {
                    lemma_full_prefix_len(self@.dom(), candidate, (k + 1) as nat);
                }
            }
            k = k + 1;
        }
    }

    /// Registers `handle` under the first identifier from `candidate` on that
    /// no active session holds, and returns that identifier.
    pub fn register_from(&mut self, candidate: usize, handle: H) -> (id: usize)
        ensures
            first_free(old(self)@.dom(), candidate, id),
            !old(self)@.contains_key(id),
            final(self)@ == old(self)@.insert(id, handle),
    {
        let id = self.free_id(candidate);
        self.sessions.insert(id, handle);
        id
    }

    /// Registers `handle` under an identifier that no active session holds,
    /// searched for from a random starting point, and returns it.
    pub fn register(&mut self, handle: H) -> (id: usize)
        ensures
            !old(self)@.contains_key(id),
            final(self)@ == old(self)@.insert(id, handle),
    {
        let candidate = draw_usize(&mut self.rng);
        self.register_from(candidate, handle)
    }

    /// Forgets the session of `id`; nothing changes where there is none.
    pub fn unregister(&mut self, id: usize)
        ensures
            final(self)@ == old(self)@.remove(id),
            !old(self)@.contains_key(id) ==> final(self)@ == old(self)@,
    {
        self.sessions.remove(&id);
        proof {
            if !old(self)@.contains_key(id) {
                assert(final(self)@ =~= old(self)@);
            }
        }
    }

    /// The entries whose identifier is not `skip`, each once.
    fn entries_except(&self, skip: Option<usize>) -> (r: Vec<(usize, &H)>)
        ensures
            lists_exactly(
                match skip {
                    Some(x) => self@.remove(x),
                    None => self@,
                },
                r@,
            ),
    {
        let ghost m = self@;
        let ghost target = match skip {
            Some(x) => m.remove(x),
            None => m,
        };
        let mut out: Vec<(usize, &H)> = Vec::new();
        let ghost s = vstd::std_specs::hash::spec_hash_map_iter(&self.sessions).remaining();
        let ghost mut src: Seq<int> = Seq::empty();
        for entry in it: self.sessions.iter()
            invariant
                m == self@,
                target == match skip {
                    Some(x) => m.remove(x),
                    None => m,
                },
                it.seq() == s,
                s.no_duplicates(),
                forall|i: int|
                    0 <= i < s.len() ==> m.contains_key(*s[i].0) && m[*s[i].0] == *s[i].1,
                forall|k: usize| m.contains_key(k) ==> s.contains((&k, &m[k])),
                src.len() == out.len(),
                forall|i: int|
                    0 <= i < out.len() ==> 0 <= #[trigger] src[i] < it.index() && *s[src[i]].0
                        == out@[i].0 && *s[src[i]].1 == *out@[i].1,
                forall|i: int| 0 <= i < out.len() ==> target.contains_key(#[trigger] out@[i].0),
                forall|j: int|
                    0 <= j < it.index() && target.contains_key(*s[j].0) ==> ids_of(
                        out@,
                    ).contains(*s[j].0),
                ids_of(out@).no_duplicates(),
        {
            let (id, h) = entry;
            let ghost k = it.index() as int;
            let ghost before = out@;
            assert(*id == *s[k].0 && *h == *s[k].1);
            let keep = match skip {
                Some(x) => *id != x,
                None => true,
            };
            if keep {
                proof {
                    assert(!ids_of(before).contains(*id)) by {
                        if ids_of(before).contains(*id) {
                            let i = ids_of(before).index_of(*id);
                            assert(s[src[i]] == s[k]);
                        }
                    }
                    src = src.push(k);
                }
                out.push((*id, h));
                proof {
                    assert(ids_of(out@) == ids_of(before).push(*id));
                }
            }
            proof {
                assert forall|j: int|
                    0 <= j <= k && target.contains_key(*s[j].0) implies ids_of(out@).contains(
                    *s[j].0,
                ) by {
                    if j < k {
                        let i = ids_of(before).index_of(*s[j].0);
                        assert(ids_of(out@)[i] == ids_of(before)[i]);
                    } else {
                        assert(ids_of(out@)[out.len() - 1] == *id);
                    }
                }
            }
        }
        proof {
            assert(ids_of(out@).to_set() =~= target.dom()) by {
                assert forall|x: usize| ids_of(out@).to_set().contains(x) implies target.contains_key(x) by {
                    let i = ids_of(out@).index_of(x);
                    assert(target.contains_key(out@[i].0));
                }
                assert forall|x: usize| target.contains_key(x) implies ids_of(out@).to_set().contains(x) by {
                    let j = s.index_of((&x, &m[x]));
                    assert(*s[j].0 == x);
                }
            }
            assert forall|i: int| 0 <= i < out.len() implies target[#[trigger] out@[i].0] == *out@[i].1 by {
                assert(target.contains_key(out@[i].0));
                let j = src[i];
                assert(m[*s[j].0] == *s[j].1);
            }
        }
        out
    }

    /// Every active entry, each once, as it stands at this instant.
    pub fn snapshot(&self) -> (r: Vec<(usize, &H)>)
        ensures
            lists_exactly(self@, r@),
    {
        self.entries_except(None)
    }

    /// The entries to which `msg` is to be delivered: every active one but
    /// its sender's, each once. The sender need not be active.
    pub fn broadcast(&self, msg: &ChatMessage) -> (r: Vec<(usize, &H)>)
        ensures
            lists_exactly(self@.remove(msg.client_id), r@),
    {
        self.entries_except(Some(msg.client_id))
    }
}

} // verus!
