//! The order in which identifiers are tried, starting from a candidate and
//! wrapping around the whole `usize` range.

use vstd::prelude::*;
use vstd::set_lib::lemma_len_subset;

verus! {

/// The identifier tried at step `j` when the search starts at `c`.
pub open spec fn probe(c: usize, j: nat) -> usize {
    if c + j <= usize::MAX {
        (c + j) as usize
    } else {
        (c + j - usize::MAX - 1) as usize
    }
}

/// `id` is the first identifier outside `taken` met by the search from `c`.
pub open spec fn first_free(taken: Set<usize>, c: usize, id: usize) -> bool {
    &&& !taken.contains(id)
    &&& exists|j: nat|
        j <= usize::MAX && id == #[trigger] probe(c, j) && forall|i: nat|
            i < j ==> taken.contains(#[trigger] probe(c, i))
}

/// The identifiers tried in the first `n` steps from `c`.
pub open spec fn probed(c: usize, n: nat) -> Set<usize>
    decreases n,
{
    if n == 0 {
        Set::empty()
    } else {
        probed(c, (n - 1) as nat).insert(probe(c, (n - 1) as nat))
    }
}

/// Within one turn of the range no identifier is tried twice.
proof fn lemma_probe_injective(c: usize, i: nat, j: nat)
    requires
        i < j <= usize::MAX,
    ensures
        probe(c, i) != probe(c, j),
{
}

/// The first `n` steps try `n` identifiers, all of them in `taken`
/// where each of them was found there.
proof fn lemma_probed(taken: Set<usize>, c: usize, n: nat)
    requires
        n <= usize::MAX + 1,
        forall|i: nat| i < n ==> taken.contains(#[trigger] probe(c, i)),
    ensures
        probed(c, n).finite(),
        probed(c, n).len() == n,
        probed(c, n).subset_of(taken),
    decreases n,
{
    if n > 0 {
        let m = (n - 1) as nat;
        lemma_probed(taken, c, m);
        assert(!probed(c, m).contains(probe(c, m))) by {
            lemma_probed_members(c, m);
            if probed(c, m).contains(probe(c, m)) {
                let i = choose|i: nat| i < m && probed_at(c, i, probe(c, m));
                lemma_probe_injective(c, i, m);
            }
        }
    }
}

spec fn probed_at(c: usize, i: nat, x: usize) -> bool {
    probe(c, i) == x
}

/// Every identifier in `probed(c, n)` is tried at some step before `n`.
proof fn lemma_probed_members(c: usize, n: nat)
    ensures
        forall|x: usize| #[trigger]
            probed(c, n).contains(x) ==> exists|i: nat| i < n && probed_at(c, i, x),
    decreases n,
{
    if n > 0 {
        let m = (n - 1) as nat;
        lemma_probed_members(c, m);
        assert(probed(c, n) == probed(c, m).insert(probe(c, m)));
        assert forall|x: usize| #[trigger] probed(c, n).contains(x) implies exists|i: nat|
            i < n && probed_at(c, i, x) by {
            if x == probe(c, m) {
                assert(probed_at(c, m, x));
            } else {
                assert(probed(c, m).contains(x));
                let i = choose|i: nat| i < m && probed_at(c, i, x);
                assert(probed_at(c, i, x));
            }
        }
    }
}

/// A finite set of identifiers that holds each of the first `n` tried from
/// `c` has at least `n` members.
pub proof fn lemma_full_prefix_len(taken: Set<usize>, c: usize, n: nat)
    requires
        taken.finite(),
        n <= usize::MAX + 1,
        forall|i: nat| i < n ==> taken.contains(#[trigger] probe(c, i)),
    ensures
        taken.len() >= n,
{
    lemma_probed(taken, c, n);
    lemma_len_subset(probed(c, n), taken);
}

} // verus!
