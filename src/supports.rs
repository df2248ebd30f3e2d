use crate::engine::{backers_of, edges_to, edges_within, saturated, to_support_map_call};
use crate::types::{amount_sum, staked_view, supports_view, StakedAssignment, Support};
use vstd::prelude::*;

verus! {

/// The edges of a distribution whose target is one of `winners`, in order.
pub open spec fn keep_targets(d: Seq<(u64, u128)>, winners: Seq<u64>) -> Seq<(u64, u128)>
    decreases d.len(),
{
    if d.len() == 0 {
        seq![]
    } else if winners.contains(d.last().0) {
        keep_targets(d.drop_last(), winners).push(d.last())
    } else {
        keep_targets(d.drop_last(), winners)
    }
}

/// The staked assignments with every edge to a non-winner dropped.
pub open spec fn winner_edges_only(
    staked: Seq<(u64, Seq<(u64, u128)>)>,
    winners: Seq<u64>,
) -> Seq<(u64, Seq<(u64, u128)>)> {
    staked.map_values(|a: (u64, Seq<(u64, u128)>)| (a.0, keep_targets(a.1, winners)))
}

/// Each identifier of `s` at its first occurrence, in order.
pub open spec fn first_occurrences(s: Seq<u64>) -> Seq<u64>
    decreases s.len(),
{
    if s.len() == 0 {
        seq![]
    } else if s.drop_last().contains(s.last()) {
        first_occurrences(s.drop_last())
    } else {
        first_occurrences(s.drop_last()).push(s.last())
    }
}

/// The support that `target` receives from the staked assignments.
pub open spec fn support_of(staked: Seq<(u64, Seq<(u64, u128)>)>, target: u64) -> (
    u128,
    Seq<(u64, u128)>,
) {
    (saturated(amount_sum(backers_of(staked, target))), backers_of(staked, target))
}

/// One entry per winner, in the order in which the winners first appear.
pub open spec fn supports_of(winners: Seq<u64>, staked: Seq<(u64, Seq<(u64, u128)>)>) -> Seq<
    (u64, (u128, Seq<(u64, u128)>)),
> {
    first_occurrences(winners).map_values(|w: u64| (w, support_of(staked, w)))
}

proof fn lemma_keep_targets_within(d: Seq<(u64, u128)>, winners: Seq<u64>)
    ensures
        forall|j: int|
            0 <= j < keep_targets(d, winners).len() ==> winners.contains(
                #[trigger] keep_targets(d, winners)[j].0,
            ),
    decreases d.len(),
{
    if d.len() > 0 {
        lemma_keep_targets_within(d.drop_last(), winners);
        let prev = keep_targets(d.drop_last(), winners);
        assert forall|j: int|
            0 <= j < keep_targets(d, winners).len() implies winners.contains(
            #[trigger] keep_targets(d, winners)[j].0,
        ) by {
            if j < prev.len() {
                assert(keep_targets(d, winners)[j] == prev[j]);
            }
        }
    }
}

proof fn lemma_keep_targets_edges(who: u64, d: Seq<(u64, u128)>, winners: Seq<u64>, w: u64)
    requires
        winners.contains(w),
    ensures
        edges_to(who, keep_targets(d, winners), w) == edges_to(who, d, w),
    decreases d.len(),
{
    if d.len() > 0 {
        lemma_keep_targets_edges(who, d.drop_last(), winners, w);
        if winners.contains(d.last().0) {
            assert(keep_targets(d, winners).drop_last() =~= keep_targets(d.drop_last(), winners));
        }
    }
}

/// Dropping the edges to non-winners changes no winner's backers.
pub proof fn lemma_winner_edges_backers(
    staked: Seq<(u64, Seq<(u64, u128)>)>,
    winners: Seq<u64>,
    w: u64,
)
    requires
        winners.contains(w),
    ensures
        backers_of(winner_edges_only(staked, winners), w) == backers_of(staked, w),
    decreases staked.len(),
{
    if staked.len() > 0 {
        lemma_winner_edges_backers(staked.drop_last(), winners, w);
        assert(winner_edges_only(staked, winners).drop_last() =~= winner_edges_only(
            staked.drop_last(),
            winners,
        ));
        lemma_keep_targets_edges(staked.last().0, staked.last().1, winners, w);
    }
}

proof fn lemma_winner_edges_within(staked: Seq<(u64, Seq<(u64, u128)>)>, winners: Seq<u64>)
    ensures
        edges_within(winner_edges_only(staked, winners), winners),
{
    assert forall|i: int, j: int|
        0 <= i < winner_edges_only(staked, winners).len() && 0 <= j < winner_edges_only(
            staked,
            winners,
        )[i].1.len() implies winners.contains(
        #[trigger] winner_edges_only(staked, winners)[i].1[j].0,
    ) by {
        lemma_keep_targets_within(staked[i].1, winners);
    }
}

/// Whether `x` occurs in `v`.
pub fn contains_id(v: &Vec<u64>, x: u64) -> (r: bool)
    ensures
        r == v@.contains(x),
{
    let mut i: usize = 0;
    while i < v.len()
        invariant
            i <= v.len(),
            forall|j: int| 0 <= j < i ==> v@[j] != x,
        decreases v.len() - i,
    {
        if v[i] == x {
            return true;
        }
        i = i + 1;
    }
    false
}

/// Whether `x` occurs among the first `k` identifiers of `v`.
fn occurs_before(v: &Vec<u64>, k: usize, x: u64) -> (r: bool)
    requires
        k <= v.len(),
    ensures
        r == v@.subrange(0, k as int).contains(x),
{
    let mut i: usize = 0;
    while i < k
        invariant
            i <= k <= v.len(),
            forall|j: int| 0 <= j < i ==> v@[j] != x,
        decreases k - i,
    {
        if v[i] == x {
            assert(v@.subrange(0, k as int)[i as int] == x);
            return true;
        }
        i = i + 1;
    }
    false
}

/// Keeps, in each staked assignment, only the edges whose target is a winner.
pub fn keep_winner_edges(winners: &Vec<u64>, staked: &Vec<StakedAssignment>) -> (r: Vec<
    StakedAssignment,
>)
    ensures
        staked_view(r@) == winner_edges_only(staked_view(staked@), winners@),
{
    let mut r: Vec<StakedAssignment> = Vec::new();
    let mut i: usize = 0;
    while i < staked.len()
        invariant
            i <= staked.len(),
            r.len() == i,
            forall|j: int|
                0 <= j < i ==> (#[trigger] r@[j])@ == (
                    staked@[j].who,
                    keep_targets(staked@[j].distribution@, winners@),
                ),
        decreases staked.len() - i,
    {
        let d = &staked[i].distribution;
        let mut kept: Vec<(u64, u128)> = Vec::new();
        let mut k: usize = 0;
        while k < d.len()
            invariant
                k <= d.len(),
                kept@ == keep_targets(d@.subrange(0, k as int), winners@),
            decreases d.len() - k,
        {
            assert(d@.subrange(0, k as int + 1).drop_last() =~= d@.subrange(0, k as int));
            if contains_id(winners, d[k].0) {
                kept.push(d[k]);
            }
            k = k + 1;
        }
        assert(d@.subrange(0, k as int) =~= d@);
        r.push(StakedAssignment { who: staked[i].who, distribution: kept });
        i = i + 1;
    }
    assert(staked_view(r@) =~= winner_edges_only(staked_view(staked@), winners@));
    r
}

/// The index of the entry keyed `w`.
fn find_entry(entries: &Vec<(u64, Support)>, w: u64) -> (r: usize)
    requires
        exists|i: int| 0 <= i < entries.len() && #[trigger] entries@[i].0 == w,
    ensures
        r < entries.len(),
        entries@[r as int].0 == w,
{
    let mut i: usize = 0;
    while i < entries.len()
        invariant
            i <= entries.len(),
            forall|j: int| 0 <= j < i ==> entries@[j].0 != w,
            exists|j: int| 0 <= j < entries.len() && #[trigger] entries@[j].0 == w,
        decreases entries.len() - i,
    {
        if entries[i].0 == w {
            return i;
        }
        i = i + 1;
    }
    i
}

/// Builds each winner's support from the staked assignments, skipping edges
/// to targets that did not win, and lists the winners in the order in which
/// they first appear in `winners`.
pub fn build_supports(winners: &Vec<u64>, staked: &Vec<StakedAssignment>) -> (r: Vec<
    (u64, Support),
>)
    ensures
        supports_view(r@) == supports_of(winners@, staked_view(staked@)),
{
    let kept = keep_winner_edges(winners, staked);
    proof {
        lemma_winner_edges_within(staked_view(staked@), winners@);
    }
    let entries = match to_support_map_call(winners, &kept) {
        Ok(v) => v,
        Err(_) => {
            assert(false);
            Vec::new()
        },
    };
    let ghost model = staked_view(staked@);
    let mut out: Vec<(u64, Support)> = Vec::new();
    let mut k: usize = 0;
    while k < winners.len()
        invariant
            k <= winners.len(),
            supports_view(out@) == supports_of(winners@.subrange(0, k as int), model),
            forall|i: int| 0 <= i < entries.len() ==> winners@.contains(#[trigger] entries@[i].0),
            forall|w: u64|
                winners@.contains(w) ==> exists|i: int|
                    0 <= i < entries.len() && #[trigger] entries@[i].0 == w,
            forall|i: int|
                #![trigger entries@[i]]
                0 <= i < entries.len() ==> {
                    &&& entries@[i].1.voters@ == backers_of(staked_view(kept@), entries@[i].0)
                    &&& entries@[i].1.total == saturated(
                        amount_sum(backers_of(staked_view(kept@), entries@[i].0)),
                    )
                },
            staked_view(kept@) == winner_edges_only(model, winners@),
        decreases winners.len() - k,
    {
        let w = winners[k];
        let ghost prefix = winners@.subrange(0, k as int + 1);
        assert(prefix.drop_last() =~= winners@.subrange(0, k as int));
        assert(prefix.last() == w);
        if !occurs_before(winners, k, w) {
            assert(winners@.contains(w)) by {
                assert(winners@[k as int] == w);
            }
            let i = find_entry(&entries, w);
            proof {
                lemma_winner_edges_backers(model, winners@, w);
            }
            let s = entries[i].1.duplicate();
            let ghost before = supports_view(out@);
            out.push((w, s));
            assert(first_occurrences(prefix) == first_occurrences(
                winners@.subrange(0, k as int),
            ).push(w));
            assert(s@ == support_of(model, w));
            assert(supports_view(out@) =~= before.push((w, support_of(model, w))));
            assert(supports_view(out@) =~= supports_of(prefix, model));
        } else {
            assert(supports_of(prefix, model) =~= supports_of(
                winners@.subrange(0, k as int),
                model,
            ));
        }
        k = k + 1;
    }
    assert(winners@.subrange(0, k as int) =~= winners@);
    out
}

} // verus!

verus! {

/// `first_occurrences` keeps each identifier once and loses none.
pub proof fn lemma_first_occurrences(s: Seq<u64>)
    ensures
        first_occurrences(s).no_duplicates(),
        forall|x: u64| first_occurrences(s).contains(x) <==> s.contains(x),
        first_occurrences(s).len() <= s.len(),
        s.no_duplicates() ==> first_occurrences(s).len() == s.len(),
    decreases s.len(),
{
    if s.len() > 0 {
        let p = s.drop_last();
        lemma_first_occurrences(p);
        assert(s =~= p.push(s.last()));
        assert forall|x: u64| s.contains(x) <==> (p.contains(x) || x == s.last()) by {
            if s.contains(x) {
                let j = choose|j: int| 0 <= j < s.len() && s[j] == x;
                if j < p.len() {
                    assert(p[j] == x);
                }
            }
            if p.contains(x) {
                let j = choose|j: int| 0 <= j < p.len() && p[j] == x;
                assert(s[j] == x);
            }
            if x == s.last() {
                assert(s[s.len() - 1] == x);
            }
        }
        if !p.contains(s.last()) {
            let f = first_occurrences(p);
            assert(first_occurrences(s) == f.push(s.last()));
            assert forall|x: u64| f.push(s.last()).contains(x) <==> (f.contains(x) || x
                == s.last()) by {
                if f.push(s.last()).contains(x) {
                    let j = choose|j: int| 0 <= j < f.len() + 1 && f.push(s.last())[j] == x;
                    if j < f.len() {
                        assert(f[j] == x);
                    }
                }
                if f.contains(x) {
                    let j = choose|j: int| 0 <= j < f.len() && f[j] == x;
                    assert(f.push(s.last())[j] == x);
                }
                if x == s.last() {
                    assert(f.push(s.last())[f.len() as int] == x);
                }
            }
        }
        if s.no_duplicates() {
            assert(p.no_duplicates());
            assert(!p.contains(s.last())) by {
                if p.contains(s.last()) {
                    let j = choose|j: int| 0 <= j < p.len() && p[j] == s.last();
                    assert(s[j] == s[s.len() - 1]);
                }
            }
        }
    }
}

} // verus!
