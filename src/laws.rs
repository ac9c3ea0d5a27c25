//! What holds across calls of the hub, stated over the contracts of
//! `ChatManager`'s methods.

use crate::manager::{ids_of, lists_exactly};
use vstd::prelude::*;

verus! {

/// `s` holds an entry for `k`, with handle `h`, at exactly one position.
pub open spec fn listed_once<H>(s: Seq<(usize, &H)>, k: usize, h: H) -> bool {
    exists|i: int|
        0 <= i < s.len() && #[trigger] s[i].0 == k && *s[i].1 == h && forall|j: int|
            0 <= j < s.len() && #[trigger] s[j].0 == k ==> j == i
}

/// A list that holds each entry of `m` exactly once holds each active
/// identifier at one position, with its handle, and no other identifier.
pub proof fn lemma_lists_each_once<H>(m: Map<usize, H>, s: Seq<(usize, &H)>, k: usize)
    requires
        lists_exactly(m, s),
    ensures
        m.contains_key(k) ==> listed_once(s, k, m[k]),
        !m.contains_key(k) ==> forall|i: int| 0 <= i < s.len() ==> #[trigger] s[i].0 != k,
{
    let ids = ids_of(s);
    if m.contains_key(k) {
        assert(ids.to_set().contains(k));
        let i = ids.index_of(k);
        assert(ids[i] == s[i].0);
        assert forall|j: int| 0 <= j < s.len() && #[trigger] s[j].0 == k implies j == i by {
            assert(ids[j] == s[j].0);
        }
    } else {
        assert forall|i: int| 0 <= i < s.len() implies #[trigger] s[i].0 != k by {
            assert(ids[i] == s[i].0);
            assert(ids.to_set().contains(ids[i]));
        }
    }
}

/// Once `x` is registered with handle `h`, a snapshot lists `x` exactly
/// once, with `h`.
pub proof fn lemma_registered_listed_once<H>(
    before: Map<usize, H>,
    x: usize,
    h: H,
    s: Seq<(usize, &H)>,
)
    requires
        lists_exactly(before.insert(x, h), s),
    ensures
        listed_once(s, x, h),
{
    lemma_lists_each_once(before.insert(x, h), s, x);
}

/// Once `x` is unregistered, a snapshot never lists `x`.
pub proof fn lemma_unregistered_not_listed<H>(before: Map<usize, H>, x: usize, s: Seq<(usize, &H)>)
    requires
        lists_exactly(before.remove(x), s),
    ensures
        forall|i: int| 0 <= i < s.len() ==> #[trigger] s[i].0 != x,
{
    lemma_lists_each_once(before.remove(x), s, x);
}

/// A broadcast from `sender` reaches every other active client exactly once,
/// with its own handle, and never the sender, whether or not the sender is
/// still active.
pub proof fn lemma_broadcast_reaches_others_once<H>(
    m: Map<usize, H>,
    sender: usize,
    s: Seq<(usize, &H)>,
)
    requires
        lists_exactly(m.remove(sender), s),
    ensures
        forall|k: usize| m.contains_key(k) && k != sender ==> #[trigger] listed_once(s, k, m[k]),
        forall|i: int| 0 <= i < s.len() ==> #[trigger] s[i].0 != sender,
{
    assert forall|k: usize| m.contains_key(k) && k != sender implies #[trigger] listed_once(
        s,
        k,
        m[k],
    ) by {
        lemma_lists_each_once(m.remove(sender), s, k);
    }
    lemma_lists_each_once(m.remove(sender), s, sender);
}

/// The registry after the handles `hs` were registered in turn, from
/// `start`, under the identifiers `ids`.
pub open spec fn registered_in_turn<H>(start: Map<usize, H>, ids: Seq<usize>, hs: Seq<H>) -> Map<
    usize,
    H,
>
    decreases ids.len(),
{
    if ids.len() == 0 || hs.len() == 0 {
        start
    } else {
        registered_in_turn(start, ids.drop_last(), hs.drop_last()).insert(ids.last(), hs.last())
    }
}

/// Each identifier in `ids` was free in the registry at the time it was
/// handed out, as `register` ensures of every call.
pub open spec fn fresh_in_turn<H>(start: Map<usize, H>, ids: Seq<usize>, hs: Seq<H>) -> bool {
    forall|n: int|
        0 <= n < ids.len() ==> !#[trigger] registered_in_turn(
            start,
            ids.take(n),
            hs.take(n),
        ).contains_key(ids[n])
}

/// Registrations served one after another receive pairwise-distinct
/// identifiers, none of them active before, and the registry then holds
/// exactly one more entry per call, each with its own handle.
pub proof fn lemma_registrations_distinct<H>(start: Map<usize, H>, ids: Seq<usize>, hs: Seq<H>)
    requires
        start.dom().finite(),
        ids.len() == hs.len(),
        fresh_in_turn(start, ids, hs),
    ensures
        ids.no_duplicates(),
        forall|i: int| 0 <= i < ids.len() ==> !start.contains_key(#[trigger] ids[i]),
        registered_in_turn(start, ids, hs).dom().finite(),
        registered_in_turn(start, ids, hs).len() == start.len() + ids.len(),
        forall|i: int|
            0 <= i < ids.len() ==> registered_in_turn(start, ids, hs).contains_key(#[trigger] ids[i])
                && registered_in_turn(start, ids, hs)[ids[i]] == hs[i],
        forall|k: usize|
            start.contains_key(k) ==> #[trigger] registered_in_turn(start, ids, hs).contains_key(k)
                && registered_in_turn(start, ids, hs)[k] == start[k],
    decreases ids.len(),
{
    if ids.len() > 0 {
        let n = ids.len() - 1;
        let pi = ids.drop_last();
        let ph = hs.drop_last();
        assert(pi == ids.take(n));
        assert(ph == hs.take(n));
        assert forall|m: int| 0 <= m < pi.len() implies !#[trigger] registered_in_turn(
            start,
            pi.take(m),
            ph.take(m),
        ).contains_key(pi[m]) by {
            assert(pi.take(m) == ids.take(m));
            assert(ph.take(m) == hs.take(m));
            assert(!registered_in_turn(start, ids.take(m), hs.take(m)).contains_key(ids[m]));
        }
        lemma_registrations_distinct(start, pi, ph);
        let before = registered_in_turn(start, pi, ph);
        assert(!before.contains_key(ids[n]));
        assert forall|i: int| 0 <= i < n implies ids[i] != ids[n] by {
            assert(before.contains_key(pi[i]));
        }
        assert forall|i: int, j: int| 0 <= i < ids.len() && 0 <= j < ids.len() && i != j implies ids[i] != ids[j] by {
            if i < n && j < n {
                assert(pi[i] == ids[i] && pi[j] == ids[j]);
            }
        }
        assert forall|i: int| 0 <= i < ids.len() implies !start.contains_key(#[trigger] ids[i]) by {
            if i < n {
                assert(pi[i] == ids[i]);
            } else {
                if start.contains_key(ids[i]) {
                    assert(before.contains_key(ids[i]));
                }
            }
        }
        let after = registered_in_turn(start, ids, hs);
        assert(after == before.insert(ids[n], hs[n]));
        assert forall|i: int| 0 <= i < ids.len() implies after.contains_key(#[trigger] ids[i])
            && after[ids[i]] == hs[i] by {
            if i < n {
                assert(pi[i] == ids[i] && ph[i] == hs[i]);
                assert(before[pi[i]] == ph[i]);
            }
        }
    }
}

} // verus!
