use crate::stake_index::{stake_in, stake_of};
use crate::types::{amount_sum, ratios_view, staked_view, RatioAssignment, StakedAssignment, Support};
use sp_arithmetic::PerThing;
use sp_npos_elections::Error as NposError;
use sp_std::collections::btree_map::BTreeMap;
use vstd::prelude::*;

verus! {

#[verifier::external_type_specification]
#[verifier::external_body]
pub struct ExNposError(NposError);

/// The winners (with their approval stake) and the ratio assignments that
/// sequential Phragmén computes for the given inputs, `None` where it fails.
pub uninterp spec fn seq_phragmen_of(
    to_elect: usize,
    targets: Seq<u64>,
    voters: Seq<(u64, u64, Seq<u64>)>,
) -> Option<(Seq<(u64, u128)>, Seq<(u64, Seq<(u64, u32)>)>)>;

/// The staked assignments that the ratio assignments become under the given
/// stakes, normalized per voter, `None` where normalization fails.
pub uninterp spec fn staked_normalized_of(
    ratios: Seq<(u64, Seq<(u64, u32)>)>,
    stakes: Map<u64, u64>,
) -> Option<Seq<(u64, Seq<(u64, u128)>)>>;

/// The targets of a ratio distribution whose ratio is not zero, in order.
pub open spec fn nonzero_targets(d: Seq<(u64, u32)>) -> Seq<u64>
    decreases d.len(),
{
    if d.len() == 0 {
        seq![]
    } else if d.last().1 == 0 {
        nonzero_targets(d.drop_last())
    } else {
        nonzero_targets(d.drop_last()).push(d.last().0)
    }
}

/// The targets of a staked distribution, in order.
pub open spec fn staked_targets(d: Seq<(u64, u128)>) -> Seq<u64> {
    d.map_values(|e: (u64, u128)| e.0)
}

/// The (voter, amount) edges of one voter's distribution that point at `target`.
pub open spec fn edges_to(who: u64, d: Seq<(u64, u128)>, target: u64) -> Seq<(u64, u128)>
    decreases d.len(),
{
    if d.len() == 0 {
        seq![]
    } else if d.last().0 == target {
        edges_to(who, d.drop_last(), target).push((who, d.last().1))
    } else {
        edges_to(who, d.drop_last(), target)
    }
}

/// Every (voter, amount) edge that points at `target`, in assignment order.
pub open spec fn backers_of(staked: Seq<(u64, Seq<(u64, u128)>)>, target: u64) -> Seq<(u64, u128)>
    decreases staked.len(),
{
    if staked.len() == 0 {
        seq![]
    } else {
        backers_of(staked.drop_last(), target) + edges_to(
            staked.last().0,
            staked.last().1,
            target,
        )
    }
}

/// Whether every edge of the staked assignments points at one of `winners`.
pub open spec fn edges_within(staked: Seq<(u64, Seq<(u64, u128)>)>, winners: Seq<u64>) -> bool {
    forall|i: int, j: int|
        0 <= i < staked.len() && 0 <= j < staked[i].1.len() ==> winners.contains(
            #[trigger] staked[i].1[j].0,
        )
}

/// A sum, capped at the largest `u128`.
pub open spec fn saturated(x: int) -> u128 {
    if x <= u128::MAX {
        x as u128
    } else {
        u128::MAX
    }
}

/// Relies on sp_npos_elections::seq_phragmen (with Perbill ratios and no
/// balancing): the result is a function of its inputs; it elects one
/// candidate per round, `min(to_elect, targets.len())` of them, each taken
/// once from `targets`.
#[verifier::external_body]
pub(crate) fn seq_phragmen_call(
    to_elect: usize,
    targets: Vec<u64>,
    voters: Vec<(u64, u64, Vec<u64>)>,
) -> (r: Result<(Vec<(u64, u128)>, Vec<RatioAssignment>), NposError>)
    ensures
        ({
            let model = seq_phragmen_of(to_elect, targets@, voters.deep_view());
            match r {
                Ok((w, a)) => {
                    &&& model == Some((w@, ratios_view(a@)))
                    &&& w.len() == if to_elect <= targets.len() { to_elect } else { targets.len() }
                    &&& forall|i: int| 0 <= i < w.len() ==> targets@.contains(#[trigger] w@[i].0)
                    &&& targets@.no_duplicates() ==> forall|i: int, j: int|
                        0 <= i < j < w.len() ==> w@[i].0 != w@[j].0
                },
                Err(_) => model is None,
            }
        }),
{
    sp_npos_elections::seq_phragmen::<u64, sp_arithmetic::Perbill>(to_elect, targets, voters, None)
        .map(|e| {
            let assignments = e.assignments.into_iter().map(|a| RatioAssignment {
                who: a.who,
                distribution: a.distribution.into_iter().map(|(t, p)| (t, p.deconstruct())).collect(),
            }).collect();
            (e.winners, assignments)
        })
}

/// Relies on sp_npos_elections::assignment_ratio_to_staked_normalized (with
/// Perbill ratios): the result is a function of the ratios and the stakes; it
/// keeps each voter in order with the targets of its non-zero ratios, and a
/// voter left with any target gets amounts that sum to its stake.
#[verifier::external_body]
pub(crate) fn ratio_to_staked_normalized_call(
    ratios: Vec<RatioAssignment>,
    index: &BTreeMap<u64, u64>,
) -> (r: Result<Vec<StakedAssignment>, NposError>)
    ensures
        ({
            let model = staked_normalized_of(ratios_view(ratios@), index@);
            match r {
                Ok(s) => {
                    &&& model == Some(staked_view(s@))
                    &&& s.len() == ratios.len()
                    &&& forall|i: int| #![trigger s@[i]] 0 <= i < s.len() ==> {
                        &&& s@[i].who == ratios@[i].who
                        &&& staked_targets(s@[i].distribution@) == nonzero_targets(ratios@[i].distribution@)
                        &&& s@[i].distribution.len() > 0 ==> amount_sum(s@[i].distribution@)
                            == stake_in(index@, s@[i].who)
                    }
                },
                Err(_) => model is None,
            }
        }),
{
    let ratios = ratios.into_iter().map(|a| sp_npos_elections::Assignment {
        who: a.who,
        distribution: a.distribution.into_iter().map(|(t, p)| (t, sp_arithmetic::Perbill::from_parts(p))).collect(),
    }).collect();
    sp_npos_elections::assignment_ratio_to_staked_normalized(ratios, |w: &u64| stake_of(index, w))
        .map(|s| s.into_iter().map(|a| StakedAssignment { who: a.who, distribution: a.distribution }).collect())
}

/// Relies on sp_npos_elections::to_support_map: it fails exactly when an edge
/// points outside `winners`; otherwise it yields one entry per winner, in
/// increasing key order, whose voters are the edges to it in assignment order
/// and whose total is their saturating sum.
#[verifier::external_body]
pub(crate) fn to_support_map_call(
    winners: &Vec<u64>,
    staked: &Vec<StakedAssignment>,
) -> (r: Result<Vec<(u64, Support)>, NposError>)
    ensures
        r is Ok <==> edges_within(staked_view(staked@), winners@),
        r matches Ok(v) ==> {
            &&& forall|i: int| 0 <= i < v.len() ==> winners@.contains(#[trigger] v@[i].0)
            &&& forall|w: u64| winners@.contains(w) ==> exists|i: int| 0 <= i < v.len() && #[trigger] v@[i].0 == w
            &&& forall|i: int, j: int| 0 <= i < j < v.len() ==> v@[i].0 < v@[j].0
            &&& forall|i: int| #![trigger v@[i]] 0 <= i < v.len() ==> {
                &&& v@[i].1.voters@ == backers_of(staked_view(staked@), v@[i].0)
                &&& v@[i].1.total == saturated(amount_sum(backers_of(staked_view(staked@), v@[i].0)))
            }
        },
{
    let staked: Vec<_> = staked.iter().map(|a| sp_npos_elections::StakedAssignment {
        who: a.who,
        distribution: a.distribution.clone(),
    }).collect();
    sp_npos_elections::to_support_map(winners, &staked)
        .map(|m| m.into_iter().map(|(k, s)| (k, Support { total: s.total, voters: s.voters })).collect())
}

} // verus!
