//! The stack resolver: an in-memory cache of fetched records and the
//! discovery strategies over it.

use vstd::prelude::*;
use crate::extract::{extract_dependencies, extract_stack_info, spec_extract_deps, spec_stack_info};
use crate::pr::{
    cache_ids, contains_u32, find_pr, find_pr_from, lemma_cache_ids_finite, lemma_find_iff_ids,
    lemma_to_set_push, PullRequest,
};
use crate::sort::{
    dep_count, insert_by_deps, is_main, keep_from, lemma_insert_by_deps_multiset,
    lemma_sort_by_deps_permutes, mains_first, sort_by_deps, sort_mains_first, sort_stack_by_deps,
};

verus! {

/// The one fatal failure of resolution: the start request itself is not
/// among the fetched records.
#[derive(Debug)]
pub enum ResolveError {
    StartNotFound,
}

/// Two requests adjoin in a stack when one's base branch is the other's head
/// branch; the rule reads the same from either side.
pub open spec fn spec_branch_related(a: PullRequest, b: PullRequest) -> bool {
    a.base_ref@ == b.head_ref@ || b.base_ref@ == a.head_ref@
}

/// The rule is symmetric: either request may be taken as the one under
/// examination.
pub proof fn lemma_branch_related_symmetric(a: PullRequest, b: PullRequest)
    ensures
        spec_branch_related(a, b) == spec_branch_related(b, a),
{
}

/// Numbers from `open[i..]` whose fetched record adjoins `target` by branch,
/// in listing order; the target's own number and unfetched numbers are
/// skipped.
pub open spec fn related_from(
    cache: Seq<PullRequest>,
    open: Seq<u32>,
    target: PullRequest,
    i: int,
) -> Seq<u32>
    decreases open.len() - i,
{
    if i < 0 || i >= open.len() {
        seq![]
    } else {
        let rest = related_from(cache, open, target, i + 1);
        let n = open[i];
        if n != target.number && (match find_pr(cache, n) {
            Some(pr) => spec_branch_related(pr, target),
            None => false,
        }) {
            seq![n] + rest
        } else {
            rest
        }
    }
}

/// All open numbers whose record adjoins `target` by branch.
pub open spec fn spec_related(cache: Seq<PullRequest>, open: Seq<u32>, target: PullRequest) -> Seq<
    u32,
> {
    related_from(cache, open, target, 0)
}

/// Numbers from `open[i..]` whose fetched record names `n` in a dependency
/// phrase, the number `n` itself excepted.
pub open spec fn referencing_from(cache: Seq<PullRequest>, open: Seq<u32>, n: u32, i: int) -> Seq<
    u32,
>
    decreases open.len() - i,
{
    if i < 0 || i >= open.len() {
        seq![]
    } else {
        let rest = referencing_from(cache, open, n, i + 1);
        let o = open[i];
        if o != n && (match find_pr(cache, o) {
            Some(opr) => spec_extract_deps(opr.body@).contains(n),
            None => false,
        }) {
            seq![o] + rest
        } else {
            rest
        }
    }
}

/// The numbers explored from a request during dependency traversal: the ones
/// its own body names, then the open ones whose bodies name it.
pub open spec fn dep_children(cache: Seq<PullRequest>, open: Seq<u32>, n: u32, pr: PullRequest) -> Seq<
    u32,
> {
    spec_extract_deps(pr.body@) + referencing_from(cache, open, n, 0)
}

/// Depth-first branch-chaining traversal over an explicit work list: the
/// front number is taken; an already-visited or unfetched number is dropped;
/// otherwise its record is appended to `acc` and its branch-related open
/// numbers are explored next. Yields the final visited set and collection.
pub open spec fn traverse_b(
    cache: Seq<PullRequest>,
    open: Seq<u32>,
    work: Seq<u32>,
    visited: Set<u32>,
    acc: Seq<PullRequest>,
) -> (Set<u32>, Seq<PullRequest>)
    decreases cache_ids(cache).difference(visited).len(), work.len(),
    via traverse_b_dec
{
    if work.len() == 0 {
        (visited, acc)
    } else {
        let n = work[0];
        if visited.contains(n) {
            traverse_b(cache, open, work.drop_first(), visited, acc)
        } else {
            match find_pr(cache, n) {
                None => traverse_b(cache, open, work.drop_first(), visited.insert(n), acc),
                Some(pr) => traverse_b(
                    cache,
                    open,
                    spec_related(cache, open, pr) + work.drop_first(),
                    visited.insert(n),
                    acc.push(pr),
                ),
            }
        }
    }
}

#[via_fn]
proof fn traverse_b_dec(
    cache: Seq<PullRequest>,
    open: Seq<u32>,
    work: Seq<u32>,
    visited: Set<u32>,
    acc: Seq<PullRequest>,
) {
    if work.len() > 0 {
        let n = work[0];
        if !visited.contains(n) {
            traverse_step_dec(cache, n, visited);
        }
    }
}

/// Shared termination argument for the work-list traversals: visiting a
/// fetched number shrinks the unvisited part of the cache, visiting an
/// unfetched one leaves it unchanged.
proof fn traverse_step_dec(cache: Seq<PullRequest>, n: u32, visited: Set<u32>)
    requires
        !visited.contains(n),
    ensures
        find_pr(cache, n) is Some ==> cache_ids(cache).difference(visited.insert(n)).len()
            < cache_ids(cache).difference(visited).len(),
        find_pr(cache, n) is None ==> cache_ids(cache).difference(visited.insert(n)).len()
            == cache_ids(cache).difference(visited).len(),
{
    lemma_cache_ids_finite(cache);
    lemma_find_iff_ids(cache, n);
    if find_pr(cache, n) is Some {
        cache_ids(cache).lemma_set_insert_diff_decreases(visited, n);
    } else {
        assert(cache_ids(cache).difference(visited.insert(n)) =~= cache_ids(cache).difference(
            visited,
        ));
    }
}

/// Depth-first dependency-phrase traversal over an explicit work list, in
/// both directions: from a request to the numbers its body names, and to the
/// open requests naming it.
pub open spec fn traverse_d(
    cache: Seq<PullRequest>,
    open: Seq<u32>,
    work: Seq<u32>,
    visited: Set<u32>,
    acc: Seq<PullRequest>,
) -> (Set<u32>, Seq<PullRequest>)
    decreases cache_ids(cache).difference(visited).len(), work.len(),
    via traverse_d_dec
{
    if work.len() == 0 {
        (visited, acc)
    } else {
        let n = work[0];
        if visited.contains(n) {
            traverse_d(cache, open, work.drop_first(), visited, acc)
        } else {
            match find_pr(cache, n) {
                None => traverse_d(cache, open, work.drop_first(), visited.insert(n), acc),
                Some(pr) => traverse_d(
                    cache,
                    open,
                    dep_children(cache, open, n, pr) + work.drop_first(),
                    visited.insert(n),
                    acc.push(pr),
                ),
            }
        }
    }
}

#[via_fn]
proof fn traverse_d_dec(
    cache: Seq<PullRequest>,
    open: Seq<u32>,
    work: Seq<u32>,
    visited: Set<u32>,
    acc: Seq<PullRequest>,
) {
    if work.len() > 0 {
        let n = work[0];
        if !visited.contains(n) {
            traverse_step_dec(cache, n, visited);
        }
    }
}

/// The records of `ids[i..]` that are fetched, in the listed order;
/// unfetched numbers are skipped.
pub open spec fn fetch_list_from(cache: Seq<PullRequest>, ids: Seq<u32>, i: int) -> Seq<PullRequest>
    decreases ids.len() - i,
{
    if i < 0 || i >= ids.len() {
        seq![]
    } else {
        let rest = fetch_list_from(cache, ids, i + 1);
        match find_pr(cache, ids[i]) {
            Some(pr) => seq![pr] + rest,
            None => rest,
        }
    }
}

/// The fetched records of `ids`, in the listed order.
pub open spec fn fetch_list(cache: Seq<PullRequest>, ids: Seq<u32>) -> Seq<PullRequest> {
    fetch_list_from(cache, ids, 0)
}

/// The number at position `i` already occurs earlier in the list.
pub open spec fn seen_before(ids: Seq<u32>, i: int) -> bool {
    exists|j: int| 0 <= j < i && ids[j] == ids[i]
}

/// `ids[i..]` with every repeated number dropped: of equal numbers anywhere
/// in the whole list, only the first keeps its place.
pub open spec fn dedup_from(ids: Seq<u32>, i: int) -> Seq<u32>
    decreases ids.len() - i,
{
    if i < 0 || i >= ids.len() {
        seq![]
    } else {
        let rest = dedup_from(ids, i + 1);
        if seen_before(ids, i) {
            rest
        } else {
            seq![ids[i]] + rest
        }
    }
}

/// The declared list with repeated numbers dropped, first occurrence kept:
/// a stack must not hold the same request twice.
pub fn dedup_ids(ids: &Vec<u32>) -> (r: Vec<u32>)
    ensures
        r@ == dedup_from(ids@, 0),
{
    let mut out: Vec<u32> = Vec::new();
    let mut i: usize = 0;
    while i < ids.len()
        invariant
            i <= ids@.len(),
            dedup_from(ids@, 0) == out@ + dedup_from(ids@, i as int),
            forall|x: u32|
                #[trigger] out@.contains(x) <==> exists|j: int| 0 <= j < i && ids@[j] == x,
        decreases ids@.len() - i,
    {
        let ghost out0 = out@;
        let x = ids[i];
        proof {
            if out0.contains(x) {
                assert(seen_before(ids@, i as int));
            }
            if seen_before(ids@, i as int) {
                let j = choose|j: int| 0 <= j < i && ids@[j] == ids@[i as int];
                assert(out0.contains(x));
            }
        }
        if !contains_u32(&out, x) {
            out.push(x);
            proof {
                assert forall|y: u32| #[trigger] out@.contains(y) implies (out0.contains(y) || y
                    == x) by {
                    let k = choose|k: int| 0 <= k < out@.len() && out@[k] == y;
                    if k < out0.len() {
                        assert(out0[k] == y);
                    }
                }
                assert(out@[out0.len() as int] == x);
                assert(out@.contains(x));
                assert forall|y: u32| out0.contains(y) implies #[trigger] out@.contains(y) by {
                    let k = choose|k: int| 0 <= k < out0.len() && out0[k] == y;
                    assert(out@[k] == y);
                }
            }
        }
        proof {
            assert(out0 + dedup_from(ids@, i as int) =~= out@ + dedup_from(ids@, i + 1));
        }
        i = i + 1;
    }
    out
}

/// Stack members not yet examined for branch-related requests.
pub open spec fn remaining_members(stack: Seq<PullRequest>, i: int) -> int {
    if i <= stack.len() {
        stack.len() - i
    } else {
        0
    }
}

/// Branch-chaining expansion of an explicitly declared stack: each member in
/// turn — the appended ones included — contributes its branch-related open
/// numbers (`pend`); a pending number not seen before is marked visited and,
/// when fetched, appended, until no new branch-related request is found.
pub open spec fn expand(
    cache: Seq<PullRequest>,
    open: Seq<u32>,
    stack: Seq<PullRequest>,
    visited: Set<u32>,
    pend: Seq<u32>,
    i: int,
) -> Seq<PullRequest>
    decreases
            cache_ids(cache).difference(visited).len(),
            remaining_members(stack, i),
            pend.len(),
    via expand_dec
{
    if pend.len() > 0 {
        let r = pend[0];
        if visited.contains(r) {
            expand(cache, open, stack, visited, pend.drop_first(), i)
        } else {
            match find_pr(cache, r) {
                None => expand(cache, open, stack, visited.insert(r), pend.drop_first(), i),
                Some(pr) => expand(
                    cache,
                    open,
                    stack.push(pr),
                    visited.insert(r),
                    pend.drop_first(),
                    i,
                ),
            }
        }
    } else if 0 <= i < stack.len() {
        expand(cache, open, stack, visited, spec_related(cache, open, stack[i]), i + 1)
    } else {
        stack
    }
}

#[via_fn]
proof fn expand_dec(
    cache: Seq<PullRequest>,
    open: Seq<u32>,
    stack: Seq<PullRequest>,
    visited: Set<u32>,
    pend: Seq<u32>,
    i: int,
) {
    if pend.len() > 0 {
        let r = pend[0];
        if !visited.contains(r) {
            traverse_step_dec(cache, r, visited);
        }
    }
}

/// The stack declared by the first open request other than `start` whose
/// body declares a stack listing `start`, scanning `open[i..]` in order.
pub open spec fn find_declared_from(
    cache: Seq<PullRequest>,
    open: Seq<u32>,
    start: u32,
    i: int,
) -> Option<Seq<u32>>
    decreases open.len() - i,
{
    if i < 0 || i >= open.len() {
        None
    } else {
        let o = open[i];
        let here: Option<Seq<u32>> = if o == start {
            None
        } else {
            match find_pr(cache, o) {
                None => None,
                Some(pr) => match spec_stack_info(pr.body@) {
                    Some(ids) => if ids.contains(start) {
                        Some(ids)
                    } else {
                        None
                    },
                    None => None,
                },
            }
        };
        if here is Some {
            here
        } else {
            find_declared_from(cache, open, start, i + 1)
        }
    }
}

/// What resolution returns for a fetched start request: the cascade of the
/// four strategies — the start request's own declared stack expanded by
/// branch chaining; a stack declared by another open request and listing the
/// start; branch-chaining traversal, "main"-based requests first, when it
/// reaches more than the start; and dependency-phrase traversal ordered by
/// ascending phrase count. A stack never holds the same request twice: a
/// number repeated in a declared list counts once, and the traversals guard
/// every number with a visited set.
pub open spec fn spec_resolve(cache: Seq<PullRequest>, open: Seq<u32>, start: u32) -> Seq<
    PullRequest,
>
    recommends
        find_pr(cache, start) is Some,
{
    let startpr = find_pr(cache, start).unwrap();
    if spec_stack_info(startpr.body@) is Some {
        let ids = spec_stack_info(startpr.body@).unwrap();
        let stack0 = fetch_list(cache, dedup_from(ids, 0));
        expand(cache, open, stack0, cache_ids(stack0), seq![], 0)
    } else if find_declared_from(cache, open, start, 0) is Some {
        fetch_list(cache, dedup_from(find_declared_from(cache, open, start, 0).unwrap(), 0))
    } else {
        let br = traverse_b(cache, open, seq![start], Set::empty(), seq![]).1;
        if br.len() > 1 {
            mains_first(br)
        } else {
            sort_by_deps(traverse_d(cache, open, seq![start], Set::empty(), seq![]).1)
        }
    }
}

/// The numbers a record's body refers to: its declared stack, if any, then
/// its dependency phrases.
pub open spec fn refs_of(pr: PullRequest) -> Seq<u32> {
    (match spec_stack_info(pr.body@) {
        Some(ids) => ids,
        None => seq![],
    }) + spec_extract_deps(pr.body@)
}

/// All numbers referred to by the records `cache[i..]`.
pub open spec fn all_refs_from(cache: Seq<PullRequest>, i: int) -> Seq<u32>
    decreases cache.len() - i,
{
    if i < 0 || i >= cache.len() {
        seq![]
    } else {
        refs_of(cache[i]) + all_refs_from(cache, i + 1)
    }
}

/// The stack resolver: the cache of records fetched so far, keyed by their
/// numbers, first fetch wins.
pub struct StackVisualizer {
    pub cache: Vec<PullRequest>,
}

impl StackVisualizer {
    /// A resolver with an empty cache.
    pub fn new() -> (r: StackVisualizer)
        ensures
            r.cache@ == Seq::<PullRequest>::empty(),
    {
        StackVisualizer { cache: Vec::new() }
    }

    /// Records a fetched request; a number already present keeps its first
    /// record.
    pub fn insert(&mut self, pr: PullRequest)
        ensures
            final(self).cache@ == if find_pr(old(self).cache@, pr.number) is Some {
                old(self).cache@
            } else {
                old(self).cache@.push(pr)
            },
    {
        if self.fetch_cached(pr.number).is_none() {
            self.cache.push(pr);
        }
    }

    /// The cached record numbered `id`, if any.
    pub fn fetch_cached(&self, id: u32) -> (r: Option<PullRequest>)
        ensures
            r == find_pr(self.cache@, id),
    {
        let mut i: usize = 0;
        while i < self.cache.len()
            invariant
                i <= self.cache@.len(),
                find_pr(self.cache@, id) == find_pr_from(self.cache@, id, i as int),
            decreases self.cache@.len() - i,
        {
            let pr = &self.cache[i];
            if pr.number == id {
                return Some(pr.duplicate());
            }
            i = i + 1;
        }
        None
    }

    /// The open numbers whose cached record adjoins `target` by a shared
    /// branch boundary, in listing order.
    pub fn find_related_by_branch(&self, target: &PullRequest, all_prs: &Vec<u32>) -> (r: Vec<u32>)
        ensures
            r@ == spec_related(self.cache@, all_prs@, *target),
    {
        let mut out: Vec<u32> = Vec::new();
        let mut i: usize = 0;
        while i < all_prs.len()
            invariant
                i <= all_prs@.len(),
                spec_related(self.cache@, all_prs@, *target) == out@ + related_from(
                    self.cache@,
                    all_prs@,
                    *target,
                    i as int,
                ),
            decreases all_prs@.len() - i,
        {
            let ghost out0 = out@;
            let n = all_prs[i];
            if n != target.number {
                match self.fetch_cached(n) {
                    Some(pr) => {
                        if pr.base_ref == target.head_ref || target.base_ref == pr.head_ref {
                            out.push(n);
                        }
                    },
                    None => {},
                }
            }
            proof {
                assert(out0 + related_from(self.cache@, all_prs@, *target, i as int) =~= out@
                    + related_from(self.cache@, all_prs@, *target, i + 1));
            }
            i = i + 1;
        }
        out
    }

    /// Branch-chaining traversal from `num`: visits each number once, adds
    /// each newly reached record to `stack`, and explores its branch-related
    /// open numbers depth-first.
    pub fn traverse_branches(
        &self,
        num: u32,
        all_prs: &Vec<u32>,
        visited: &mut Vec<u32>,
        stack: &mut Vec<PullRequest>,
    )
        ensures
            ({
                let r = traverse_b(
                    self.cache@,
                    all_prs@,
                    seq![num],
                    old(visited)@.to_set(),
                    old(stack)@,
                );
                final(visited)@.to_set() == r.0 && final(stack)@ == r.1
            }),
    {
        let ghost goal = traverse_b(self.cache@, all_prs@, seq![num], visited@.to_set(), stack@);
        let mut work: Vec<u32> = Vec::new();
        work.push(num);
        proof {
            assert(work@ =~= seq![num]);
        }
        while work.len() > 0
            invariant
                traverse_b(self.cache@, all_prs@, work@, visited@.to_set(), stack@) == goal,
            decreases cache_ids(self.cache@).difference(visited@.to_set()).len(), work@.len(),
        {
            let ghost w0 = work@;
            let ghost v0 = visited@.to_set();
            let n = work.remove(0);
            proof {
                assert(work@ =~= w0.drop_first());
                if !v0.contains(n) {
                    traverse_step_dec(self.cache@, n, v0);
                }
            }
            if !contains_u32(visited, n) {
                let ghost vseq0 = visited@;
                visited.push(n);
                proof {
                    lemma_to_set_push(vseq0, n);
                }
                match self.fetch_cached(n) {
                    None => {},
                    Some(pr) => {
                        let mut rel = self.find_related_by_branch(&pr, all_prs);
                        stack.push(pr);
                        rel.append(&mut work);
                        work = rel;
                    },
                }
            }
        }
        proof {
            assert(goal == (visited@.to_set(), stack@));
        }
    }

    /// Dependency-phrase traversal from `num`: visits each number once,
    /// adds each newly reached record to `stack`, and explores both the
    /// numbers its body names and the open requests naming it.
    pub fn traverse_deps(
        &self,
        num: u32,
        all_prs: &Vec<u32>,
        visited: &mut Vec<u32>,
        stack: &mut Vec<PullRequest>,
    )
        ensures
            ({
                let r = traverse_d(
                    self.cache@,
                    all_prs@,
                    seq![num],
                    old(visited)@.to_set(),
                    old(stack)@,
                );
                final(visited)@.to_set() == r.0 && final(stack)@ == r.1
            }),
    {
        let ghost goal = traverse_d(self.cache@, all_prs@, seq![num], visited@.to_set(), stack@);
        let mut work: Vec<u32> = Vec::new();
        work.push(num);
        proof {
            assert(work@ =~= seq![num]);
        }
        while work.len() > 0
            invariant
                traverse_d(self.cache@, all_prs@, work@, visited@.to_set(), stack@) == goal,
            decreases cache_ids(self.cache@).difference(visited@.to_set()).len(), work@.len(),
        {
            let ghost w0 = work@;
            let ghost v0 = visited@.to_set();
            let n = work.remove(0);
            proof {
                assert(work@ =~= w0.drop_first());
                if !v0.contains(n) {
                    traverse_step_dec(self.cache@, n, v0);
                }
            }
            if !contains_u32(visited, n) {
                let ghost vseq0 = visited@;
                visited.push(n);
                proof {
                    lemma_to_set_push(vseq0, n);
                }
                match self.fetch_cached(n) {
                    None => {},
                    Some(pr) => {
                        let mut ch = extract_dependencies(pr.body.as_str());
                        let mut refs = self.referencing(n, all_prs);
                        ch.append(&mut refs);
                        stack.push(pr);
                        ch.append(&mut work);
                        work = ch;
                    },
                }
            }
        }
        proof {
            assert(goal == (visited@.to_set(), stack@));
        }
    }

    /// The open numbers whose cached record names `n` in a dependency
    /// phrase.
    fn referencing(&self, n: u32, all_prs: &Vec<u32>) -> (r: Vec<u32>)
        ensures
            r@ == referencing_from(self.cache@, all_prs@, n, 0),
    {
        let mut out: Vec<u32> = Vec::new();
        let mut i: usize = 0;
        while i < all_prs.len()
            invariant
                i <= all_prs@.len(),
                referencing_from(self.cache@, all_prs@, n, 0) == out@ + referencing_from(
                    self.cache@,
                    all_prs@,
                    n,
                    i as int,
                ),
            decreases all_prs@.len() - i,
        {
            let ghost out0 = out@;
            let o = all_prs[i];
            if o != n {
                match self.fetch_cached(o) {
                    Some(opr) => {
                        let deps = extract_dependencies(opr.body.as_str());
                        if contains_u32(&deps, n) {
                            out.push(o);
                        }
                    },
                    None => {},
                }
            }
            proof {
                assert(out0 + referencing_from(self.cache@, all_prs@, n, i as int) =~= out@
                    + referencing_from(self.cache@, all_prs@, n, i + 1));
            }
            i = i + 1;
        }
        out
    }

    /// The fetched records of `ids`, in the listed order.
    fn fetch_list_exec(&self, ids: &Vec<u32>) -> (r: Vec<PullRequest>)
        ensures
            r@ == fetch_list(self.cache@, ids@),
    {
        let mut out: Vec<PullRequest> = Vec::new();
        let mut i: usize = 0;
        while i < ids.len()
            invariant
                i <= ids@.len(),
                fetch_list(self.cache@, ids@) == out@ + fetch_list_from(
                    self.cache@,
                    ids@,
                    i as int,
                ),
            decreases ids@.len() - i,
        {
            let ghost out0 = out@;
            match self.fetch_cached(ids[i]) {
                Some(pr) => {
                    out.push(pr);
                },
                None => {},
            }
            proof {
                assert(out0 + fetch_list_from(self.cache@, ids@, i as int) =~= out@
                    + fetch_list_from(self.cache@, ids@, i + 1));
            }
            i = i + 1;
        }
        out
    }

    /// All numbers referred to by any cached record, declared stacks and
    /// dependency phrases alike; a driver can use them to decide what is
    /// still worth fetching.
    pub fn referenced_ids(&self) -> (r: Vec<u32>)
        ensures
            r@ == all_refs_from(self.cache@, 0),
    {
        let mut out: Vec<u32> = Vec::new();
        let mut i: usize = 0;
        while i < self.cache.len()
            invariant
                i <= self.cache@.len(),
                all_refs_from(self.cache@, 0) == out@ + all_refs_from(self.cache@, i as int),
            decreases self.cache@.len() - i,
        {
            let ghost out0 = out@;
            let pr = &self.cache[i];
            let mut here: Vec<u32> = match extract_stack_info(pr.body.as_str()) {
                Some(ids) => ids,
                None => Vec::new(),
            };
            let mut deps = extract_dependencies(pr.body.as_str());
            here.append(&mut deps);
            proof {
                assert(here@ =~= refs_of(self.cache@[i as int]));
            }
            let mut h = here;
            out.append(&mut h);
            proof {
                assert(out0 + all_refs_from(self.cache@, i as int) =~= out@ + all_refs_from(
                    self.cache@,
                    i + 1,
                ));
            }
            i = i + 1;
        }
        out
    }

    /// Resolution: the strategy cascade of `spec_resolve` applied to the
    /// cached records, from the start number; fails exactly when the start
    /// request itself was never fetched.
    pub fn build_stack_graph(&self, start_pr: u32, all_prs: &Vec<u32>) -> (r: Result<
        Vec<PullRequest>,
        ResolveError,
    >)
        ensures
            r is Ok <==> find_pr(self.cache@, start_pr) is Some,
            r matches Ok(stack) ==> stack@ == spec_resolve(self.cache@, all_prs@, start_pr),
            r matches Err(e) ==> e is StartNotFound,
    {
        let start = match self.fetch_cached(start_pr) {
            Some(pr) => pr,
            None => {
                return Err(ResolveError::StartNotFound);
            },
        };
        if let Some(ids) = extract_stack_info(start.body.as_str()) {
            let ids = dedup_ids(&ids);
            let mut stack = self.fetch_list_exec(&ids);
            let mut visited: Vec<u32> = Vec::new();
            let mut k: usize = 0;
            while k < stack.len()
                invariant
                    k <= stack@.len(),
                    visited@.to_set() == cache_ids(stack@.take(k as int)),
                decreases stack@.len() - k,
            {
                let ghost vseq0 = visited@;
                visited.push(stack[k].number);
                proof {
                    lemma_to_set_push(vseq0, stack@[k as int].number);
                    let f = |pr: PullRequest| pr.number;
                    assert(stack@.take(k + 1).map_values(f) =~= stack@.take(k as int).map_values(
                        f,
                    ).push(stack@[k as int].number));
                    lemma_to_set_push(stack@.take(k as int).map_values(f), stack@[k as int].number);
                }
                k = k + 1;
            }
            proof {
                assert(stack@.take(stack@.len() as int) =~= stack@);
            }
            let ghost goal = expand(
                self.cache@,
                all_prs@,
                stack@,
                visited@.to_set(),
                seq![],
                0,
            );
            let mut pend: Vec<u32> = Vec::new();
            let mut i: usize = 0;
            proof {
                assert(pend@ =~= Seq::<u32>::empty());
            }
            while pend.len() > 0 || i < stack.len()
                invariant
                    i <= stack@.len(),
                    expand(self.cache@, all_prs@, stack@, visited@.to_set(), pend@, i as int)
                        == goal,
                decreases
                        cache_ids(self.cache@).difference(visited@.to_set()).len(),
                        stack@.len() - i,
                        pend@.len(),
            {
                if pend.len() > 0 {
                    let ghost p0 = pend@;
                    let ghost v0 = visited@.to_set();
                    let r = pend.remove(0);
                    proof {
                        assert(pend@ =~= p0.drop_first());
                    }
                    if !contains_u32(&visited, r) {
                        let ghost vseq0 = visited@;
                        visited.push(r);
                        proof {
                            lemma_to_set_push(vseq0, r);
                            traverse_step_dec(self.cache@, r, v0);
                        }
                        match self.fetch_cached(r) {
                            None => {},
                            Some(pr) => {
                                stack.push(pr);
                            },
                        }
                    }
                } else {
                    let t = (&stack[i]).duplicate();
                    let rel = self.find_related_by_branch(&t, all_prs);
                    pend = rel;
                    i = i + 1;
                }
            }
            proof {
                assert(goal == stack@);
            }
            return Ok(stack);
        }
        let mut i: usize = 0;
        while i < all_prs.len()
            invariant
                i <= all_prs@.len(),
                find_pr(self.cache@, start_pr) == Some(start),
                spec_stack_info(start.body@) is None,
                find_declared_from(self.cache@, all_prs@, start_pr, 0) == find_declared_from(
                    self.cache@,
                    all_prs@,
                    start_pr,
                    i as int,
                ),
            decreases all_prs@.len() - i,
        {
            let o = all_prs[i];
            if o != start_pr {
                match self.fetch_cached(o) {
                    Some(pr) => {
                        if let Some(ids) = extract_stack_info(pr.body.as_str()) {
                            if contains_u32(&ids, start_pr) {
                                proof {
                                    assert(find_pr(self.cache@, start_pr) is Some);
                                    assert(find_declared_from(
                                        self.cache@,
                                        all_prs@,
                                        start_pr,
                                        i as int,
                                    ) == Some(ids@));
                                }
                                return Ok(self.fetch_list_exec(&dedup_ids(&ids)));
                            }
                        }
                    },
                    None => {},
                }
            }
            i = i + 1;
        }
        let mut visited: Vec<u32> = Vec::new();
        let mut stack: Vec<PullRequest> = Vec::new();
        proof {
            assert(visited@.to_set() =~= Set::<u32>::empty());
        }
        self.traverse_branches(start_pr, all_prs, &mut visited, &mut stack);
        if stack.len() > 1 {
            return Ok(sort_mains_first(&stack));
        }
        let mut visited2: Vec<u32> = Vec::new();
        let mut stack2: Vec<PullRequest> = Vec::new();
        proof {
            assert(visited2@.to_set() =~= Set::<u32>::empty());
        }
        self.traverse_deps(start_pr, all_prs, &mut visited2, &mut stack2);
        Ok(sort_stack_by_deps(&stack2))
    }
}

/// The numbers of the collected records are pairwise distinct.
pub open spec fn nums_distinct(s: Seq<PullRequest>) -> bool {
    forall|i: int, j: int| 0 <= i < j < s.len() ==> s[i].number != s[j].number
}

/// Every collected record's number lies in the visited set.
pub open spec fn nums_in(s: Seq<PullRequest>, v: Set<u32>) -> bool {
    forall|i: int| 0 <= i < s.len() ==> v.contains(#[trigger] s[i].number)
}

/// Cycle safety of branch-chaining traversal: however the requests refer to
/// one another, each request is collected at most once, its number marked
/// visited.
pub proof fn lemma_traverse_b_distinct(
    cache: Seq<PullRequest>,
    open: Seq<u32>,
    work: Seq<u32>,
    visited: Set<u32>,
    acc: Seq<PullRequest>,
)
    requires
        nums_distinct(acc),
        nums_in(acc, visited),
    ensures
        ({
            let r = traverse_b(cache, open, work, visited, acc);
            nums_distinct(r.1) && nums_in(r.1, r.0)
        }),
    decreases cache_ids(cache).difference(visited).len(), work.len(),
{
    if work.len() > 0 {
        let n = work[0];
        if visited.contains(n) {
            lemma_traverse_b_distinct(cache, open, work.drop_first(), visited, acc);
        } else {
            traverse_step_dec(cache, n, visited);
            lemma_find_iff_ids(cache, n);
            match find_pr(cache, n) {
                None => {
                    lemma_traverse_b_distinct(
                        cache,
                        open,
                        work.drop_first(),
                        visited.insert(n),
                        acc,
                    );
                },
                Some(pr) => {
                    assert(nums_distinct(acc.push(pr)));
                    assert(nums_in(acc.push(pr), visited.insert(n)));
                    lemma_traverse_b_distinct(
                        cache,
                        open,
                        spec_related(cache, open, pr) + work.drop_first(),
                        visited.insert(n),
                        acc.push(pr),
                    );
                },
            }
        }
    }
}

/// Cycle safety of dependency-phrase traversal: even mutually referring
/// bodies yield each request at most once.
pub proof fn lemma_traverse_d_distinct(
    cache: Seq<PullRequest>,
    open: Seq<u32>,
    work: Seq<u32>,
    visited: Set<u32>,
    acc: Seq<PullRequest>,
)
    requires
        nums_distinct(acc),
        nums_in(acc, visited),
    ensures
        ({
            let r = traverse_d(cache, open, work, visited, acc);
            nums_distinct(r.1) && nums_in(r.1, r.0)
        }),
    decreases cache_ids(cache).difference(visited).len(), work.len(),
{
    if work.len() > 0 {
        let n = work[0];
        if visited.contains(n) {
            lemma_traverse_d_distinct(cache, open, work.drop_first(), visited, acc);
        } else {
            traverse_step_dec(cache, n, visited);
            lemma_find_iff_ids(cache, n);
            match find_pr(cache, n) {
                None => {
                    lemma_traverse_d_distinct(
                        cache,
                        open,
                        work.drop_first(),
                        visited.insert(n),
                        acc,
                    );
                },
                Some(pr) => {
                    assert(nums_distinct(acc.push(pr)));
                    assert(nums_in(acc.push(pr), visited.insert(n)));
                    lemma_traverse_d_distinct(
                        cache,
                        open,
                        dep_children(cache, open, n, pr) + work.drop_first(),
                        visited.insert(n),
                        acc.push(pr),
                    );
                },
            }
        }
    }
}

/// A start request with nothing for any strategy to discover — no declared
/// stack of its own, no open request declaring it, no branch-related open
/// request, no dependency phrase in its body and none naming it — resolves
/// to the one-element stack holding the start request itself.
pub proof fn lemma_unstacked(cache: Seq<PullRequest>, open: Seq<u32>, start: u32)
    requires
        find_pr(cache, start) is Some,
        spec_stack_info(find_pr(cache, start).unwrap().body@) is None,
        find_declared_from(cache, open, start, 0) is None,
        spec_related(cache, open, find_pr(cache, start).unwrap()) == Seq::<u32>::empty(),
        spec_extract_deps(find_pr(cache, start).unwrap().body@) == Seq::<u32>::empty(),
        referencing_from(cache, open, start, 0) == Seq::<u32>::empty(),
    ensures
        spec_resolve(cache, open, start) == seq![find_pr(cache, start).unwrap()],
{
    let pr = find_pr(cache, start).unwrap();
    lemma_find_iff_ids(cache, start);
    let w0: Seq<u32> = seq![start];
    assert(w0.drop_first() =~= Seq::<u32>::empty());
    let v0 = Set::<u32>::empty();
    let a0 = Seq::<PullRequest>::empty();
    let wb = spec_related(cache, open, pr) + w0.drop_first();
    assert(wb =~= Seq::<u32>::empty());
    let b1 = traverse_b(cache, open, w0, v0, a0);
    assert(b1 == traverse_b(cache, open, wb, v0.insert(start), a0.push(pr)));
    assert(b1.1 == a0.push(pr));
    assert(b1.1.len() == 1);
    let wd = dep_children(cache, open, start, pr) + w0.drop_first();
    assert(dep_children(cache, open, start, pr) =~= Seq::<u32>::empty());
    assert(wd =~= Seq::<u32>::empty());
    let d1 = traverse_d(cache, open, w0, v0, a0);
    assert(d1 == traverse_d(cache, open, wd, v0.insert(start), a0.push(pr)));
    assert(d1.1 == a0.push(pr));
    let single = a0.push(pr);
    assert(single.drop_last() =~= Seq::<PullRequest>::empty());
    assert(sort_by_deps(single.drop_last()) == Seq::<PullRequest>::empty());
    assert(sort_by_deps(single) == insert_by_deps(Seq::<PullRequest>::empty(), pr));
    assert(insert_by_deps(Seq::<PullRequest>::empty(), pr) =~= seq![pr]);
    assert(spec_resolve(cache, open, start) == sort_by_deps(d1.1));
    assert(spec_resolve(cache, open, start) =~= seq![pr]);
}

/// The deduplicated list has pairwise distinct numbers, each a first
/// occurrence from the given list.
proof fn lemma_dedup_distinct(ids: Seq<u32>, i: int)
    ensures
        ({
            let d = dedup_from(ids, i);
            &&& forall|m1: int, m2: int| 0 <= m1 < m2 < d.len() ==> d[m1] != d[m2]
            &&& forall|m: int|
                0 <= m < d.len() ==> exists|k: int|
                    i <= k < ids.len() && ids[k] == #[trigger] d[m] && !seen_before(ids, k)
        }),
    decreases ids.len() - i,
{
    if 0 <= i && i < ids.len() {
        lemma_dedup_distinct(ids, i + 1);
        let rest = dedup_from(ids, i + 1);
        let d = dedup_from(ids, i);
        if seen_before(ids, i) {
            assert forall|m: int| 0 <= m < d.len() implies exists|k: int|
                i <= k < ids.len() && ids[k] == #[trigger] d[m] && !seen_before(ids, k) by {
                let k = choose|k: int|
                    i + 1 <= k < ids.len() && ids[k] == rest[m] && !seen_before(ids, k);
                assert(i <= k < ids.len() && ids[k] == d[m] && !seen_before(ids, k));
            }
        } else {
            assert(d == seq![ids[i]] + rest);
            assert forall|m: int| 0 <= m < d.len() implies exists|k: int|
                i <= k < ids.len() && ids[k] == #[trigger] d[m] && !seen_before(ids, k) by {
                if m == 0 {
                    assert(d[0] == ids[i]);
                    assert(i <= i < ids.len() && ids[i] == d[m] && !seen_before(ids, i));
                } else {
                    assert(d[m] == rest[m - 1]);
                    let k = choose|k: int|
                        i + 1 <= k < ids.len() && ids[k] == rest[m - 1] && !seen_before(ids, k);
                    assert(i <= k < ids.len() && ids[k] == d[m] && !seen_before(ids, k));
                }
            }
            assert forall|m1: int, m2: int| 0 <= m1 < m2 < d.len() implies d[m1] != d[m2] by {
                if m1 == 0 {
                    assert(d[m2] == rest[m2 - 1]);
                    let k = choose|k: int|
                        i + 1 <= k < ids.len() && ids[k] == rest[m2 - 1] && !seen_before(ids, k);
                    if d[m2] == ids[i] {
                        assert(0 <= i < k && ids[i] == ids[k]);
                        assert(seen_before(ids, k));
                    }
                } else {
                    assert(d[m1] == rest[m1 - 1]);
                    assert(d[m2] == rest[m2 - 1]);
                }
            }
        }
    }
}

/// Fetching a list of pairwise distinct numbers yields records with
/// pairwise distinct numbers, each one of the listed numbers.
proof fn lemma_fetch_list_distinct(cache: Seq<PullRequest>, ids: Seq<u32>, i: int)
    requires
        0 <= i,
        forall|k1: int, k2: int| i <= k1 < k2 < ids.len() ==> ids[k1] != ids[k2],
    ensures
        ({
            let r = fetch_list_from(cache, ids, i);
            &&& nums_distinct(r)
            &&& forall|m: int|
                0 <= m < r.len() ==> exists|k: int|
                    i <= k < ids.len() && (#[trigger] r[m]).number == ids[k]
        }),
    decreases ids.len() - i,
{
    if i < ids.len() {
        lemma_fetch_list_distinct(cache, ids, i + 1);
        let rest = fetch_list_from(cache, ids, i + 1);
        let r = fetch_list_from(cache, ids, i);
        match find_pr(cache, ids[i]) {
            None => {
                assert forall|m: int| 0 <= m < r.len() implies exists|k: int|
                    i <= k < ids.len() && (#[trigger] r[m]).number == ids[k] by {
                    let k = choose|k: int|
                        i + 1 <= k < ids.len() && rest[m].number == ids[k];
                    assert(i <= k < ids.len() && r[m].number == ids[k]);
                }
            },
            Some(pr) => {
                lemma_find_iff_ids(cache, ids[i]);
                assert(r == seq![pr] + rest);
                assert forall|m: int| 0 <= m < r.len() implies exists|k: int|
                    i <= k < ids.len() && (#[trigger] r[m]).number == ids[k] by {
                    if m == 0 {
                        assert(i <= i < ids.len() && r[m].number == ids[i]);
                    } else {
                        assert(r[m] == rest[m - 1]);
                        let k = choose|k: int|
                            i + 1 <= k < ids.len() && rest[m - 1].number == ids[k];
                        assert(i <= k < ids.len() && r[m].number == ids[k]);
                    }
                }
                assert forall|m1: int, m2: int| 0 <= m1 < m2 < r.len() implies r[m1].number
                    != r[m2].number by {
                    if m1 == 0 {
                        assert(r[m2] == rest[m2 - 1]);
                        let k = choose|k: int|
                            i + 1 <= k < ids.len() && rest[m2 - 1].number == ids[k];
                        assert(ids[i] != ids[k]);
                    } else {
                        assert(r[m1] == rest[m1 - 1]);
                        assert(r[m2] == rest[m2 - 1]);
                    }
                }
            },
        }
    }
}

/// Every record's number lies in the number set of its own sequence.
proof fn lemma_nums_in_own_ids(stack: Seq<PullRequest>)
    ensures
        nums_in(stack, cache_ids(stack)),
{
    let nums = stack.map_values(|pr: PullRequest| pr.number);
    assert forall|j: int| 0 <= j < stack.len() implies cache_ids(stack).contains(
        #[trigger] stack[j].number,
    ) by {
        assert(nums[j] == stack[j].number);
        assert(nums.contains(stack[j].number));
    }
}

/// Branch-chaining expansion appends only unvisited, newly marked numbers:
/// a stack with distinct numbers, all visited, keeps distinct numbers.
proof fn lemma_expand_distinct(
    cache: Seq<PullRequest>,
    open: Seq<u32>,
    stack: Seq<PullRequest>,
    visited: Set<u32>,
    pend: Seq<u32>,
    i: int,
)
    requires
        nums_distinct(stack),
        nums_in(stack, visited),
    ensures
        nums_distinct(expand(cache, open, stack, visited, pend, i)),
    decreases
            cache_ids(cache).difference(visited).len(),
            remaining_members(stack, i),
            pend.len(),
{
    if pend.len() > 0 {
        let r = pend[0];
        if visited.contains(r) {
            lemma_expand_distinct(cache, open, stack, visited, pend.drop_first(), i);
        } else {
            traverse_step_dec(cache, r, visited);
            match find_pr(cache, r) {
                None => {
                    lemma_expand_distinct(
                        cache,
                        open,
                        stack,
                        visited.insert(r),
                        pend.drop_first(),
                        i,
                    );
                },
                Some(pr) => {
                    lemma_find_iff_ids(cache, r);
                    assert(nums_distinct(stack.push(pr)));
                    assert(nums_in(stack.push(pr), visited.insert(r)));
                    lemma_expand_distinct(
                        cache,
                        open,
                        stack.push(pr),
                        visited.insert(r),
                        pend.drop_first(),
                        i,
                    );
                },
            }
        }
    } else if 0 <= i < stack.len() {
        lemma_expand_distinct(cache, open, stack, visited, spec_related(cache, open, stack[i]), i + 1);
    }
}

/// Expansion that never finds a branch-related request leaves the declared
/// stack as it is.
proof fn lemma_expand_no_related(
    cache: Seq<PullRequest>,
    open: Seq<u32>,
    stack: Seq<PullRequest>,
    visited: Set<u32>,
    i: int,
)
    requires
        0 <= i,
        forall|j: int|
            i <= j < stack.len() ==> #[trigger] spec_related(cache, open, stack[j]) == Seq::<
                u32,
            >::empty(),
    ensures
        expand(cache, open, stack, visited, seq![], i) == stack,
    decreases remaining_members(stack, i),
{
    if i < stack.len() {
        lemma_expand_no_related(cache, open, stack, visited, i + 1);
        assert(spec_related(cache, open, stack[i]) == Seq::<u32>::empty());
    }
}

/// When every listed number is fetched, the fetched list has one record per
/// number, in the listed order.
proof fn lemma_fetch_list_all_found(cache: Seq<PullRequest>, ids: Seq<u32>, i: int)
    requires
        0 <= i <= ids.len(),
        forall|k: int| i <= k < ids.len() ==> (#[trigger] find_pr(cache, ids[k])) is Some,
    ensures
        fetch_list_from(cache, ids, i).len() == ids.len() - i,
        forall|k: int|
            i <= k < ids.len() ==> fetch_list_from(cache, ids, i)[k - i] == (
            #[trigger] find_pr(cache, ids[k])).unwrap(),
    decreases ids.len() - i,
{
    if i < ids.len() {
        lemma_fetch_list_all_found(cache, ids, i + 1);
        let rest = fetch_list_from(cache, ids, i + 1);
        let r = fetch_list_from(cache, ids, i);
        assert(r == seq![find_pr(cache, ids[i]).unwrap()] + rest);
        assert forall|k: int| i <= k < ids.len() implies r[k - i] == (#[trigger] find_pr(
            cache,
            ids[k],
        )).unwrap() by {
            if k > i {
                assert(r[k - i] == rest[k - i - 1]);
            }
        }
    }
}

/// A start request that declares a stack whose numbers are distinct and all
/// fetched, none of them branch-related to any open request, resolves to
/// exactly the declared records, in the declared order.
pub proof fn lemma_declared_stack_order(
    cache: Seq<PullRequest>,
    open: Seq<u32>,
    start: u32,
    ids: Seq<u32>,
)
    requires
        find_pr(cache, start) is Some,
        spec_stack_info(find_pr(cache, start).unwrap().body@) == Some(ids),
        dedup_from(ids, 0) == ids,
        forall|k: int| 0 <= k < ids.len() ==> (#[trigger] find_pr(cache, ids[k])) is Some,
        forall|k: int|
            0 <= k < ids.len() ==> #[trigger] spec_related(
                cache,
                open,
                find_pr(cache, ids[k]).unwrap(),
            ) == Seq::<u32>::empty(),
    ensures
        spec_resolve(cache, open, start).len() == ids.len(),
        forall|k: int|
            0 <= k < ids.len() ==> #[trigger] spec_resolve(cache, open, start)[k].number == ids[k],
{
    lemma_fetch_list_all_found(cache, ids, 0);
    let stack0 = fetch_list(cache, ids);
    assert forall|j: int| 0 <= j < stack0.len() implies #[trigger] spec_related(
        cache,
        open,
        stack0[j],
    ) == Seq::<u32>::empty() by {
        assert(stack0[j] == find_pr(cache, ids[j]).unwrap());
    }
    lemma_expand_no_related(cache, open, stack0, cache_ids(stack0), 0);
    assert(spec_resolve(cache, open, start) == stack0);
    assert forall|k: int| 0 <= k < ids.len() implies #[trigger] spec_resolve(
        cache,
        open,
        start,
    )[k].number == ids[k] by {
        assert(stack0[k] == find_pr(cache, ids[k]).unwrap());
        lemma_find_iff_ids(cache, ids[k]);
    }
}

/// Insertion before the first strictly greater count cannot repeat a
/// number the sequence does not already repeat.
proof fn lemma_insert_by_deps_distinct(s: Seq<PullRequest>, x: PullRequest)
    requires
        nums_distinct(s),
        forall|m: int| 0 <= m < s.len() ==> (#[trigger] s[m]).number != x.number,
    ensures
        nums_distinct(insert_by_deps(s, x)),
    decreases s.len(),
{
    broadcast use vstd::seq_lib::group_to_multiset_ensures;
    broadcast use vstd::multiset::group_multiset_axioms;

    if s.len() == 0 {
    } else if dep_count(s[0]) > dep_count(x) {
        let d = seq![x] + s;
        assert forall|m1: int, m2: int| 0 <= m1 < m2 < d.len() implies d[m1].number
            != d[m2].number by {
            if m1 == 0 {
                assert(d[m2] == s[m2 - 1]);
            } else {
                assert(d[m1] == s[m1 - 1]);
                assert(d[m2] == s[m2 - 1]);
            }
        }
    } else {
        let dr = s.drop_first();
        assert(forall|k: int| 0 <= k < dr.len() ==> #[trigger] dr[k] == s[k + 1]);
        assert forall|m1: int, m2: int| 0 <= m1 < m2 < dr.len() implies dr[m1].number
            != dr[m2].number by {
            assert(dr[m1] == s[m1 + 1]);
            assert(dr[m2] == s[m2 + 1]);
        }
        assert forall|m: int| 0 <= m < dr.len() implies (#[trigger] dr[m]).number != x.number by {
            assert(dr[m] == s[m + 1]);
        }
        lemma_insert_by_deps_distinct(dr, x);
        lemma_insert_by_deps_multiset(dr, x);
        let ins = insert_by_deps(dr, x);
        let d = seq![s[0]] + ins;
        assert forall|m1: int, m2: int| 0 <= m1 < m2 < d.len() implies d[m1].number
            != d[m2].number by {
            if m1 == 0 {
                let e = ins[m2 - 1];
                assert(d[m2] == e);
                assert(ins.contains(e));
                assert(ins.to_multiset().count(e) > 0);
                if e == x {
                    assert(s[0].number != x.number);
                } else {
                    assert(dr.to_multiset().count(e) > 0);
                    assert(dr.contains(e));
                    let k = choose|k: int| 0 <= k < dr.len() && dr[k] == e;
                    assert(e == s[k + 1]);
                }
            } else {
                assert(d[m1] == ins[m1 - 1]);
                assert(d[m2] == ins[m2 - 1]);
            }
        }
        assert(insert_by_deps(s, x) == d);
    }
}

/// The dependency-count sort cannot repeat a number the input does not
/// repeat.
proof fn lemma_sort_by_deps_distinct(s: Seq<PullRequest>)
    requires
        nums_distinct(s),
    ensures
        nums_distinct(sort_by_deps(s)),
    decreases s.len(),
{
    broadcast use vstd::seq_lib::group_to_multiset_ensures;
    broadcast use vstd::multiset::group_multiset_axioms;

    if s.len() > 0 {
        let dl = s.drop_last();
        assert(forall|k: int| 0 <= k < dl.len() ==> #[trigger] dl[k] == s[k]);
        assert forall|m1: int, m2: int| 0 <= m1 < m2 < dl.len() implies dl[m1].number
            != dl[m2].number by {
            assert(dl[m1] == s[m1]);
            assert(dl[m2] == s[m2]);
        }
        lemma_sort_by_deps_distinct(dl);
        lemma_sort_by_deps_permutes(dl);
        let srt = sort_by_deps(dl);
        assert forall|m: int| 0 <= m < srt.len() implies (#[trigger] srt[m]).number
            != s.last().number by {
            assert(srt.contains(srt[m]));
            assert(srt.to_multiset().count(srt[m]) > 0);
            assert(dl.to_multiset().count(srt[m]) > 0);
            assert(dl.contains(srt[m]));
            let k = choose|k: int| 0 <= k < dl.len() && dl[k] == srt[m];
            assert(srt[m] == s[k]);
        }
        lemma_insert_by_deps_distinct(srt, s.last());
    }
}

/// One side of the partition keeps distinct numbers, each element one of
/// `s[i..]` on the wanted side.
#[verifier::rlimit(60)]
proof fn lemma_keep_distinct(s: Seq<PullRequest>, want: bool, i: int)
    requires
        0 <= i,
        forall|k1: int, k2: int|
            i <= k1 < k2 < s.len() ==> (#[trigger] s[k1]).number != (#[trigger] s[k2]).number,
    ensures
        nums_distinct(keep_from(s, want, i)),
        forall|m: int|
            #![trigger keep_from(s, want, i)[m]]
            0 <= m < keep_from(s, want, i).len() ==> exists|k: int|
                i <= k < s.len() && keep_from(s, want, i)[m] == #[trigger] s[k] && is_main(s[k])
                    == want,
    decreases s.len() - i,
{
    if i < s.len() {
        lemma_keep_distinct(s, want, i + 1);
        let rest = keep_from(s, want, i + 1);
        let r = keep_from(s, want, i);
        assert forall|m: int| #![trigger keep_from(s, want, i)[m]] 0 <= m < r.len() implies exists|
            k: int,
        |
            i <= k < s.len() && keep_from(s, want, i)[m] == #[trigger] s[k] && is_main(s[k])
                == want by {
            if is_main(s[i]) == want {
                if m == 0 {
                    assert(r[m] == s[i]);
                    assert(i <= i < s.len() && r[m] == s[i] && is_main(s[i]) == want);
                } else {
                    assert(r[m] == rest[m - 1]);
                    let k = choose|k: int|
                        i + 1 <= k < s.len() && rest[m - 1] == s[k] && is_main(s[k]) == want;
                    assert(i <= k < s.len() && r[m] == s[k] && is_main(s[k]) == want);
                }
            } else {
                assert(r[m] == rest[m]);
                let k = choose|k: int|
                    i + 1 <= k < s.len() && rest[m] == s[k] && is_main(s[k]) == want;
                assert(i <= k < s.len() && r[m] == s[k] && is_main(s[k]) == want);
            }
        }
        if is_main(s[i]) == want {
            assert(r == seq![s[i]] + rest);
            assert forall|m1: int, m2: int| 0 <= m1 < m2 < r.len() implies r[m1].number
                != r[m2].number by {
                if m1 == 0 {
                    assert(r[m2] == rest[m2 - 1]);
                    let k = choose|k: int|
                        i + 1 <= k < s.len() && rest[m2 - 1] == s[k] && is_main(s[k]) == want;
                    assert(s[i].number != s[k].number);
                } else {
                    assert(r[m1] == rest[m1 - 1]);
                    assert(r[m2] == rest[m2 - 1]);
                }
            }
        } else {
            assert(r == rest);
        }
    }
}

/// The "main"-first partition cannot repeat a number the input does not
/// repeat.
proof fn lemma_mains_first_distinct(s: Seq<PullRequest>)
    requires
        nums_distinct(s),
    ensures
        nums_distinct(mains_first(s)),
{
    lemma_keep_distinct(s, true, 0);
    lemma_keep_distinct(s, false, 0);
    let a = keep_from(s, true, 0);
    let b = keep_from(s, false, 0);
    let d = a + b;
    assert forall|m1: int, m2: int| 0 <= m1 < m2 < d.len() implies d[m1].number
        != d[m2].number by {
        if m2 < a.len() {
            assert(d[m1] == a[m1]);
            assert(d[m2] == a[m2]);
        } else if m1 >= a.len() {
            assert(d[m1] == b[m1 - a.len()]);
            assert(d[m2] == b[m2 - a.len()]);
        } else {
            assert(d[m1] == a[m1]);
            assert(d[m2] == b[m2 - a.len()]);
            let k1 = choose|k: int| 0 <= k < s.len() && a[m1] == s[k] && is_main(s[k]) == true;
            let k2 = choose|k: int|
                0 <= k < s.len() && b[m2 - a.len()] == s[k] && is_main(s[k]) == false;
            assert(k1 != k2);
            if k1 < k2 {
                assert(s[k1].number != s[k2].number);
            } else {
                assert(s[k2].number != s[k1].number);
            }
        }
    }
}

/// A resolved stack never holds the same request twice: whatever the cache,
/// the open listing and the start request, the numbers of the result of
/// resolution are pairwise distinct.
pub proof fn lemma_resolve_distinct(cache: Seq<PullRequest>, open: Seq<u32>, start: u32)
    requires
        find_pr(cache, start) is Some,
    ensures
        nums_distinct(spec_resolve(cache, open, start)),
{
    let startpr = find_pr(cache, start).unwrap();
    if spec_stack_info(startpr.body@) is Some {
        let ids = spec_stack_info(startpr.body@).unwrap();
        let d = dedup_from(ids, 0);
        lemma_dedup_distinct(ids, 0);
        lemma_fetch_list_distinct(cache, d, 0);
        let stack0 = fetch_list(cache, d);
        lemma_nums_in_own_ids(stack0);
        lemma_expand_distinct(cache, open, stack0, cache_ids(stack0), seq![], 0);
    } else if find_declared_from(cache, open, start, 0) is Some {
        let ids = find_declared_from(cache, open, start, 0).unwrap();
        lemma_dedup_distinct(ids, 0);
        lemma_fetch_list_distinct(cache, dedup_from(ids, 0), 0);
    } else {
        lemma_traverse_b_distinct(cache, open, seq![start], Set::empty(), Seq::empty());
        let br = traverse_b(cache, open, seq![start], Set::empty(), Seq::empty()).1;
        if br.len() > 1 {
            lemma_mains_first_distinct(br);
        } else {
            lemma_traverse_d_distinct(cache, open, seq![start], Set::empty(), Seq::empty());
            lemma_sort_by_deps_distinct(
                traverse_d(cache, open, seq![start], Set::empty(), Seq::empty()).1,
            );
        }
    }
}

/// A two-request dependency cycle — each body naming only the other, no open
/// request naming either — terminates: dependency traversal from one of them
/// collects the two records exactly once, in discovery order.
#[verifier::rlimit(60)]
pub proof fn lemma_dependency_cycle(cache: Seq<PullRequest>, open: Seq<u32>, a: u32, b: u32)
    requires
        a != b,
        find_pr(cache, a) is Some,
        find_pr(cache, b) is Some,
        spec_extract_deps(find_pr(cache, a).unwrap().body@) == seq![b],
        spec_extract_deps(find_pr(cache, b).unwrap().body@) == seq![a],
        referencing_from(cache, open, a, 0) == Seq::<u32>::empty(),
        referencing_from(cache, open, b, 0) == Seq::<u32>::empty(),
    ensures
        traverse_d(cache, open, seq![a], Set::empty(), Seq::empty()).1 == seq![
            find_pr(cache, a).unwrap(),
            find_pr(cache, b).unwrap(),
        ],
{
    let ra = find_pr(cache, a).unwrap();
    let rb = find_pr(cache, b).unwrap();
    let t0 = traverse_d(cache, open, seq![a], Set::empty(), Seq::empty());
    assert(seq![a].drop_first() =~= Seq::<u32>::empty());
    assert(dep_children(cache, open, a, ra) + seq![a].drop_first() =~= seq![b]);
    assert(t0 == traverse_d(cache, open, seq![b], Set::empty().insert(a), Seq::empty().push(ra)));
    assert(seq![b].drop_first() =~= Seq::<u32>::empty());
    assert(dep_children(cache, open, b, rb) + seq![b].drop_first() =~= seq![a]);
    assert(t0 == traverse_d(
        cache,
        open,
        seq![a],
        Set::empty().insert(a).insert(b),
        Seq::empty().push(ra).push(rb),
    ));
    assert(t0 == traverse_d(
        cache,
        open,
        Seq::<u32>::empty(),
        Set::empty().insert(a).insert(b),
        Seq::empty().push(ra).push(rb),
    ));
    assert(t0.1 =~= seq![ra, rb]);
}

} // verus!
