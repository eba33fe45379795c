//! The two orderings the resolver applies before returning a stack: requests
//! based on "main" first (branch-chaining), and ascending count of
//! dependency phrases (dependency traversal). Both orders are stable.

use vstd::prelude::*;
use vstd::multiset::Multiset;
use vstd::string::*;
use crate::extract::{extract_dependencies, spec_extract_deps};
use crate::pr::PullRequest;

verus! {

/// The request merges into the branch named "main".
pub open spec fn is_main(pr: PullRequest) -> bool {
    pr.base_ref@ == "main"@
}

/// The elements of `s[i..]` whose "main"-ness equals `want`, in order.
pub open spec fn keep_from(s: Seq<PullRequest>, want: bool, i: int) -> Seq<PullRequest>
    decreases s.len() - i,
{
    if i < 0 || i >= s.len() {
        seq![]
    } else {
        let rest = keep_from(s, want, i + 1);
        if is_main(s[i]) == want {
            seq![s[i]] + rest
        } else {
            rest
        }
    }
}

/// Stable partition: the requests based on "main" first, each side keeping
/// its discovery order.
pub open spec fn mains_first(s: Seq<PullRequest>) -> Seq<PullRequest> {
    keep_from(s, true, 0) + keep_from(s, false, 0)
}

/// Two string slices hold the same characters.
pub fn str_eq(a: &str, b: &str) -> (r: bool)
    ensures
        r == (a@ == b@),
{
    let n = a.unicode_len();
    if n != b.unicode_len() {
        return false;
    }
    let mut i: usize = 0;
    while i < n
        invariant
            i <= n,
            n == a@.len() == b@.len(),
            forall|k: int| 0 <= k < i ==> a@[k] == b@[k],
        decreases n - i,
    {
        if a.get_char(i) != b.get_char(i) {
            return false;
        }
        i = i + 1;
    }
    proof {
        assert(a@ =~= b@);
    }
    true
}

/// Executable test for a "main" base branch.
pub fn is_main_exec(pr: &PullRequest) -> (b: bool)
    ensures
        b == is_main(*pr),
{
    str_eq(pr.base_ref.as_str(), "main")
}

/// Stable partition of a stack: entries based on "main" first.
pub fn sort_mains_first(stack: &Vec<PullRequest>) -> (r: Vec<PullRequest>)
    ensures
        r@ == mains_first(stack@),
{
    let mut out: Vec<PullRequest> = Vec::new();
    let mut i: usize = 0;
    while i < stack.len()
        invariant
            i <= stack@.len(),
            keep_from(stack@, true, 0) == out@ + keep_from(stack@, true, i as int),
        decreases stack@.len() - i,
    {
        let ghost out0 = out@;
        let pr = &stack[i];
        if is_main_exec(pr) {
            out.push(pr.duplicate());
        }
        proof {
            assert(out0 + keep_from(stack@, true, i as int) =~= out@ + keep_from(
                stack@,
                true,
                i + 1,
            ));
        }
        i = i + 1;
    }
    let mut j: usize = 0;
    while j < stack.len()
        invariant
            j <= stack@.len(),
            mains_first(stack@) == out@ + keep_from(stack@, false, j as int),
        decreases stack@.len() - j,
    {
        let ghost out0 = out@;
        let pr = &stack[j];
        if !is_main_exec(pr) {
            out.push(pr.duplicate());
        }
        proof {
            assert(out0 + keep_from(stack@, false, j as int) =~= out@ + keep_from(
                stack@,
                false,
                j + 1,
            ));
        }
        j = j + 1;
    }
    out
}

/// The number of dependency phrases in a request's own body.
pub open spec fn dep_count(pr: PullRequest) -> nat {
    spec_extract_deps(pr.body@).len()
}

/// Executable dependency-phrase count.
pub fn dep_count_exec(pr: &PullRequest) -> (n: usize)
    ensures
        n == dep_count(*pr),
{
    extract_dependencies(pr.body.as_str()).len()
}

/// Insertion of `x` into `s` before the first element with a strictly
/// greater dependency count, so that among equal counts `x` comes last.
pub open spec fn insert_by_deps(s: Seq<PullRequest>, x: PullRequest) -> Seq<PullRequest>
    decreases s.len(),
{
    if s.len() == 0 {
        seq![x]
    } else if dep_count(s[0]) > dep_count(x) {
        seq![x] + s
    } else {
        seq![s[0]] + insert_by_deps(s.drop_first(), x)
    }
}

/// Stable insertion sort by ascending dependency count.
pub open spec fn sort_by_deps(s: Seq<PullRequest>) -> Seq<PullRequest>
    decreases s.len(),
{
    if s.len() == 0 {
        seq![]
    } else {
        insert_by_deps(sort_by_deps(s.drop_last()), s.last())
    }
}

/// Ascending dependency counts.
pub open spec fn sorted_by_deps(s: Seq<PullRequest>) -> bool {
    forall|i: int, j: int| 0 <= i < j < s.len() ==> dep_count(s[i]) <= dep_count(s[j])
}

/// In a sorted sequence, inserting at the boundary position `j` — everything
/// before it no greater, everything from it on strictly greater — is what
/// `insert_by_deps` denotes, and keeps the sequence sorted.
proof fn lemma_insert_position(s: Seq<PullRequest>, x: PullRequest, j: int)
    requires
        sorted_by_deps(s),
        0 <= j <= s.len(),
        forall|k: int| 0 <= k < j ==> dep_count(#[trigger] s[k]) <= dep_count(x),
        j < s.len() ==> dep_count(s[j]) > dep_count(x),
    ensures
        insert_by_deps(s, x) == s.insert(j, x),
        sorted_by_deps(s.insert(j, x)),
    decreases j,
{
    s.insert_ensures(j, x);
    if j == 0 {
        assert(insert_by_deps(s, x) =~= s.insert(0, x));
    } else {
        let d = s.drop_first();
        assert(forall|k: int| 0 <= k < d.len() ==> d[k] == s[k + 1]);
        lemma_insert_position(d, x, j - 1);
        assert(insert_by_deps(s, x) =~= s.insert(j, x)) by {
            assert(insert_by_deps(s, x) == seq![s[0]] + d.insert(j - 1, x));
            d.insert_ensures(j - 1, x);
        }
    }
    let t = s.insert(j, x);
    assert forall|a: int, b: int| 0 <= a < b < t.len() implies dep_count(t[a]) <= dep_count(
        t[b],
    ) by {
        if a < j {
            assert(t[a] == s[a]);
        } else if a == j {
            assert(t[a] == x);
        } else {
            assert(t[a] == s[a - 1]);
        }
        if b < j {
            assert(t[b] == s[b]);
        } else if b == j {
            assert(t[b] == x);
        } else {
            assert(t[b] == s[b - 1]);
        }
        if j < s.len() {
            assert(dep_count(s[j]) > dep_count(x));
            if b > j {
                assert(dep_count(s[j]) <= dep_count(s[b - 1]));
            }
        }
    }
}

/// A singleton sequence's multiset is the element alone.
proof fn lemma_singleton_multiset(x: PullRequest)
    ensures
        seq![x].to_multiset() =~= Multiset::<PullRequest>::empty().insert(x),
{
    broadcast use vstd::seq_lib::group_to_multiset_ensures;
    broadcast use vstd::multiset::group_multiset_axioms;

    assert(seq![x] =~= Seq::<PullRequest>::empty().push(x));
    assert(Seq::<PullRequest>::empty().to_multiset() =~= Multiset::<PullRequest>::empty()) by {
        assert(Seq::<PullRequest>::empty().to_multiset().len() == 0);
        assert forall|a: PullRequest|
            Seq::<PullRequest>::empty().to_multiset().count(a) == Multiset::<
                PullRequest,
            >::empty().count(a) by {
            assert(!Seq::<PullRequest>::empty().contains(a));
        }
    }
}

/// Insertion keeps the collection: the result holds the old elements and the
/// new one, nothing else.
pub proof fn lemma_insert_by_deps_multiset(s: Seq<PullRequest>, x: PullRequest)
    ensures
        insert_by_deps(s, x).to_multiset() =~= s.to_multiset().insert(x),
    decreases s.len(),
{
    broadcast use vstd::seq_lib::group_to_multiset_ensures;
    broadcast use vstd::multiset::group_multiset_axioms;

    lemma_singleton_multiset(x);
    if s.len() == 0 {
    } else if dep_count(s[0]) > dep_count(x) {
        vstd::seq_lib::lemma_multiset_commutative(seq![x], s);
    } else {
        lemma_insert_by_deps_multiset(s.drop_first(), x);
        lemma_singleton_multiset(s[0]);
        vstd::seq_lib::lemma_multiset_commutative(seq![s[0]], insert_by_deps(s.drop_first(), x));
        assert(s =~= seq![s[0]] + s.drop_first());
        vstd::seq_lib::lemma_multiset_commutative(seq![s[0]], s.drop_first());
    }
}

/// The dependency-count sort is a permutation: it neither drops, adds nor
/// repeats a request.
pub proof fn lemma_sort_by_deps_permutes(s: Seq<PullRequest>)
    ensures
        sort_by_deps(s).to_multiset() =~= s.to_multiset(),
    decreases s.len(),
{
    broadcast use vstd::seq_lib::group_to_multiset_ensures;

    if s.len() > 0 {
        lemma_sort_by_deps_permutes(s.drop_last());
        lemma_insert_by_deps_multiset(sort_by_deps(s.drop_last()), s.last());
        assert(s =~= s.drop_last().push(s.last()));
    }
}

/// Both halves of the partition together: the stable partition is a
/// permutation of `s[i..]`.
proof fn lemma_keep_partition(s: Seq<PullRequest>, i: int)
    requires
        0 <= i <= s.len(),
    ensures
        keep_from(s, true, i).to_multiset().add(keep_from(s, false, i).to_multiset()) =~= s.skip(
            i,
        ).to_multiset(),
    decreases s.len() - i,
{
    broadcast use vstd::seq_lib::group_to_multiset_ensures;
    broadcast use vstd::multiset::group_multiset_axioms;

    if i == s.len() {
        assert(s.skip(i) =~= Seq::<PullRequest>::empty());
        assert(keep_from(s, true, i) =~= Seq::<PullRequest>::empty());
        assert(keep_from(s, false, i) =~= Seq::<PullRequest>::empty());
        lemma_singleton_multiset_empty();
    } else {
        lemma_keep_partition(s, i + 1);
        lemma_singleton_multiset(s[i]);
        assert(s.skip(i) =~= seq![s[i]] + s.skip(i + 1));
        vstd::seq_lib::lemma_multiset_commutative(seq![s[i]], s.skip(i + 1));
        if is_main(s[i]) {
            vstd::seq_lib::lemma_multiset_commutative(seq![s[i]], keep_from(s, true, i + 1));
        } else {
            vstd::seq_lib::lemma_multiset_commutative(seq![s[i]], keep_from(s, false, i + 1));
        }
    }
}

/// An empty sequence has the empty multiset.
proof fn lemma_singleton_multiset_empty()
    ensures
        Seq::<PullRequest>::empty().to_multiset() =~= Multiset::<PullRequest>::empty(),
{
    broadcast use vstd::seq_lib::group_to_multiset_ensures;
    broadcast use vstd::multiset::group_multiset_axioms;

    assert forall|a: PullRequest|
        Seq::<PullRequest>::empty().to_multiset().count(a) == Multiset::<
            PullRequest,
        >::empty().count(a) by {
        assert(!Seq::<PullRequest>::empty().contains(a));
    }
}

/// The "main"-first partition is a permutation: it neither drops, adds nor
/// repeats a request.
pub proof fn lemma_mains_first_permutes(s: Seq<PullRequest>)
    ensures
        mains_first(s).to_multiset() =~= s.to_multiset(),
{
    broadcast use vstd::seq_lib::group_to_multiset_ensures;

    lemma_keep_partition(s, 0);
    vstd::seq_lib::lemma_multiset_commutative(keep_from(s, true, 0), keep_from(s, false, 0));
    assert(s.skip(0) =~= s);
}

/// Stable sort of a stack by ascending dependency-phrase count.
pub fn sort_stack_by_deps(stack: &Vec<PullRequest>) -> (r: Vec<PullRequest>)
    ensures
        r@ == sort_by_deps(stack@),
        sorted_by_deps(r@),
{
    let mut out: Vec<PullRequest> = Vec::new();
    let mut i: usize = 0;
    while i < stack.len()
        invariant
            i <= stack@.len(),
            out@ == sort_by_deps(stack@.take(i as int)),
            sorted_by_deps(out@),
            out@.len() == i,
        decreases stack@.len() - i,
    {
        let ghost out0 = out@;
        let x = (&stack[i]).duplicate();
        let key = dep_count_exec(&x);
        let mut j = out.len();
        while j > 0
            invariant
                j <= out@.len(),
                out@ == out0,
                key == dep_count(x),
                forall|k: int| j <= k < out@.len() ==> dep_count(#[trigger] out@[k]) > dep_count(x),
            ensures
                j <= out@.len(),
                out@ == out0,
                forall|k: int| j <= k < out@.len() ==> dep_count(#[trigger] out@[k]) > dep_count(x),
                j > 0 ==> dep_count(out@[j - 1]) <= dep_count(x),
            decreases j,
        {
            let prev = dep_count_exec(&out[j - 1]);
            if prev <= key {
                break;
            }
            j = j - 1;
        }
        proof {
            assert forall|k: int| 0 <= k < j implies dep_count(#[trigger] out0[k]) <= dep_count(
                x,
            ) by {
                assert(dep_count(out0[j - 1]) <= dep_count(x));
            }
            lemma_insert_position(out0, x, j as int);
        }
        out.insert(j, x);
        proof {
            assert(stack@.take(i + 1).drop_last() =~= stack@.take(i as int));
            assert(stack@.take(i + 1).last() == stack@[i as int]);
        }
        i = i + 1;
    }
    proof {
        assert(stack@.take(stack@.len() as int) =~= stack@);
    }
    out
}

} // verus!
