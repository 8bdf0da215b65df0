use vstd::prelude::*;
use crate::chars::chars_to_string;
use crate::numbers::{spec_fmt_nat, lemma_fmt_nat_injective, lemma_fmt_nat_len, push_dec};

verus! {

/// The `k`-th name probed for a desired filename: the name itself first,
/// then the name prefixed with 1, 2, 3, ...
pub open spec fn candidate(desired: Seq<char>, k: nat) -> Seq<char> {
    if k == 0 {
        desired
    } else {
        spec_fmt_nat(k) + desired
    }
}

proof fn lemma_candidate_injective(desired: Seq<char>, k1: nat, k2: nat)
    requires
        candidate(desired, k1) == candidate(desired, k2),
    ensures
        k1 == k2,
{
    if k1 == 0 && k2 == 0 {
    } else if k1 > 0 && k2 > 0 {
        let s1 = spec_fmt_nat(k1);
        let s2 = spec_fmt_nat(k2);
        assert((s1 + desired).len() == (s2 + desired).len());
        assert(s1.len() == s2.len());
        assert forall|i: int| 0 <= i < s1.len() implies s1[i] == s2[i] by {
            assert(s1[i] == (s1 + desired)[i]);
            assert(s2[i] == (s2 + desired)[i]);
        }
        assert(s1 =~= s2);
        lemma_fmt_nat_injective(k1, k2);
    } else if k1 > 0 {
        lemma_fmt_nat_len(k1);
        assert(candidate(desired, k1).len() > desired.len());
    } else {
        lemma_fmt_nat_len(k2);
        assert(candidate(desired, k2).len() > desired.len());
    }
}

/// If the first `k + 1` candidates are all among `names`, then `names` holds
/// at least `k + 1` elements: the candidates are pairwise distinct.
proof fn lemma_candidates_bound(desired: Seq<char>, k: nat, names: Set<Seq<char>>)
    requires
        names.finite(),
        forall|j: nat| j <= k ==> names.contains(#[trigger] candidate(desired, j)),
    ensures
        names.len() >= k + 1,
    decreases k,
{
    broadcast use vstd::set::group_set_axioms;

    if k == 0 {
        assert(names.contains(candidate(desired, 0)));
        assert(names.remove(candidate(desired, 0)).len() == names.len() - 1);
    } else {
        let top = candidate(desired, k);
        let rest = names.remove(top);
        assert(forall|j: nat|
            j <= k - 1 ==> rest.contains(#[trigger] candidate(desired, j))) by {
            assert forall|j: nat| j <= k - 1 implies rest.contains(
                #[trigger] candidate(desired, j),
            ) by {
                if candidate(desired, j) == top {
                    lemma_candidate_injective(desired, j, k);
                }
            }
        }
        lemma_candidates_bound(desired, (k - 1) as nat, rest);
        assert(rest.len() == names.len() - 1);
    }
}

/// Whether some string of `names` reads `n`.
pub open spec fn name_present(names: Seq<Seq<char>>, n: Seq<char>) -> bool {
    names.contains(n)
}

fn contains_name(names: &Vec<String>, name: &String) -> (r: bool)
    ensures
        r == name_present(names.deep_view(), name@),
{
    let n = names.len();
    let mut i: usize = 0;
    while i < n
        invariant
            0 <= i <= n,
            n == names@.len(),
            forall|j: int| 0 <= j < i ==> names.deep_view()[j] != name@,
        decreases n - i,
    {
        if names[i].eq(name) {
            assert(names.deep_view()[i as int] == name@);
            return true;
        }
        i = i + 1;
    }
    assert(!name_present(names.deep_view(), name@)) by {
        if names.deep_view().contains(name@) {
            let j = choose|j: int|
                0 <= j < names.deep_view().len() && names.deep_view()[j] == name@;
        }
    }
    false
}

/// Picks a collision-free filename: `desired_name` itself when no existing
/// name reads the same, otherwise the first of `1` + name, `2` + name, ...
/// that is free.  The result is the candidate of the least free index.
pub fn resolve(desired_name: &str, existing_names: &Vec<String>) -> (r: String)
    ensures
        exists|k: nat|
            {
                &&& r@ == candidate(desired_name@, k)
                &&& !name_present(existing_names.deep_view(), candidate(desired_name@, k))
                &&& forall|j: nat|
                    j < k ==> name_present(
                        existing_names.deep_view(),
                        #[trigger] candidate(desired_name@, j),
                    )
            },
{
    let ghost names = existing_names.deep_view();
    let n = existing_names.len();
    let mut k: u64 = 0;
    let mut cand: String = desired_name.to_owned();
    loop
        invariant
            k <= n,
            n == existing_names@.len(),
            cand@ == candidate(desired_name@, k as nat),
            names == existing_names.deep_view(),
            forall|j: nat| j < k ==> name_present(names, #[trigger] candidate(desired_name@, j)),
        decreases n - k,
    {
        if !contains_name(existing_names, &cand) {
            return cand;
        }
        proof {
            broadcast use vstd::seq_lib::seq_to_set_is_finite;

            let nset = names.to_set();
            assert(forall|j: nat|
                j <= k as nat ==> nset.contains(#[trigger] candidate(desired_name@, j)));
            lemma_candidates_bound(desired_name@, k as nat, nset);
            names.lemma_cardinality_of_set();
            assert(k + 1 <= names.len());
        }
        k = k + 1;
        let mut digits: Vec<char> = Vec::new();
        push_dec(&mut digits, k);
        let prefix = chars_to_string(&digits);
        cand = prefix.concat(desired_name);
    }
}

}
