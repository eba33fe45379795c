//! The review-request record and lookup in a sequence of fetched records.

use vstd::prelude::*;

verus! {

/// One review request: a repository-scoped number, descriptive text, a
/// state, and the two branch names that delimit its commits.
pub struct PullRequest {
    pub number: u32,
    pub title: String,
    pub body: String,
    pub state: String,
    pub base_ref: String,
    pub head_ref: String,
}

impl PullRequest {
    /// An owned copy, equal to `self`.
    pub fn duplicate(&self) -> (r: PullRequest)
        ensures
            r == *self,
    {
        PullRequest {
            number: self.number,
            title: self.title.clone(),
            body: self.body.clone(),
            state: self.state.clone(),
            base_ref: self.base_ref.clone(),
            head_ref: self.head_ref.clone(),
        }
    }
}

/// The first record numbered `id` at or after position `i`.
pub open spec fn find_pr_from(cache: Seq<PullRequest>, id: u32, i: int) -> Option<PullRequest>
    decreases cache.len() - i,
{
    if i < 0 || i >= cache.len() {
        None
    } else if cache[i].number == id {
        Some(cache[i])
    } else {
        find_pr_from(cache, id, i + 1)
    }
}

/// The first record numbered `id`, if one was fetched.
pub open spec fn find_pr(cache: Seq<PullRequest>, id: u32) -> Option<PullRequest> {
    find_pr_from(cache, id, 0)
}

/// The set of numbers of the fetched records.
pub open spec fn cache_ids(cache: Seq<PullRequest>) -> Set<u32> {
    cache.map_values(|pr: PullRequest| pr.number).to_set()
}

/// A lookup succeeds at or after `i` exactly when some record from `i` on
/// carries the number, and the record found carries it.
pub proof fn lemma_find_from_iff(cache: Seq<PullRequest>, id: u32, i: int)
    requires
        0 <= i <= cache.len(),
    ensures
        find_pr_from(cache, id, i) is Some <==> exists|j: int|
            i <= j < cache.len() && #[trigger] cache[j].number == id,
        find_pr_from(cache, id, i) matches Some(pr) ==> pr.number == id,
    decreases cache.len() - i,
{
    if i < cache.len() && cache[i].number != id {
        lemma_find_from_iff(cache, id, i + 1);
    }
}

/// A lookup succeeds exactly when the number is among the fetched ones.
pub proof fn lemma_find_iff_ids(cache: Seq<PullRequest>, id: u32)
    ensures
        find_pr(cache, id) is Some <==> cache_ids(cache).contains(id),
        find_pr(cache, id) matches Some(pr) ==> pr.number == id,
{
    lemma_find_from_iff(cache, id, 0);
    let nums = cache.map_values(|pr: PullRequest| pr.number);
    assert(forall|j: int| 0 <= j < cache.len() ==> nums[j] == #[trigger] cache[j].number);
    if cache_ids(cache).contains(id) {
        let j = choose|j: int| 0 <= j < nums.len() && nums[j] == id;
        assert(cache[j].number == id);
    }
    if find_pr(cache, id) is Some {
        let j = choose|j: int| 0 <= j < cache.len() && #[trigger] cache[j].number == id;
        assert(nums[j] == id);
        assert(nums.contains(id));
    }
}

/// The set of fetched numbers is finite.
pub proof fn lemma_cache_ids_finite(cache: Seq<PullRequest>)
    ensures
        cache_ids(cache).finite(),
{
    broadcast use vstd::seq_lib::seq_to_set_is_finite;

}

/// Membership of a number in a vector.
pub fn contains_u32(v: &Vec<u32>, x: u32) -> (b: bool)
    ensures
        b == v@.contains(x),
{
    let mut i: usize = 0;
    while i < v.len()
        invariant
            i <= v@.len(),
            forall|k: int| 0 <= k < i ==> v@[k] != x,
        decreases v@.len() - i,
    {
        if v[i] == x {
            return true;
        }
        i = i + 1;
    }
    false
}

/// Pushing one element onto a sequence inserts it into the element set.
pub proof fn lemma_to_set_push(s: Seq<u32>, x: u32)
    ensures
        s.push(x).to_set() =~= s.to_set().insert(x),
{
    assert forall|y: u32| #[trigger] s.push(x).contains(y) implies s.contains(y) || y == x by {
        let i = choose|i: int| 0 <= i < s.push(x).len() && s.push(x)[i] == y;
        if i < s.len() {
            assert(s[i] == y);
        }
    }
    assert(s.push(x)[s.len() as int] == x);
    assert(s.push(x).contains(x));
    assert forall|y: u32| s.contains(y) implies #[trigger] s.push(x).contains(y) by {
        let i = choose|i: int| 0 <= i < s.len() && s[i] == y;
        assert(s.push(x)[i] == y);
    }
}

} // verus!
