use crate::engine::{
    backers_of, edges_to, nonzero_targets, ratio_to_staked_normalized_call,
    seq_phragmen_call, seq_phragmen_of, staked_normalized_of,
};
use crate::stake_index::{build_stake_index, stake_in, stake_index_of};
use crate::supports::{
    build_supports, first_occurrences, lemma_first_occurrences, supports_of,
};
use crate::types::{
    amount_sum, ratios_view, staked_view, supports_view, RatioAssignment, StakedAssignment,
    Support,
};
use sp_npos_elections::Error as NposError;
use sp_std::collections::btree_map::BTreeMap;
use vstd::prelude::*;

verus! {

/// Parts of a whole in a ratio.
pub const RATIO_ONE: u32 = 1_000_000_000;

/// Errors of the on-chain election.
#[derive(Debug, PartialEq, Eq)]
pub enum Error {
    /// An error of the apportionment engine or of the normalization.
    NposElections(NposError),
}

impl From<NposError> for Error {
    fn from(e: NposError) -> (r: Self)
        ensures
            r == Error::NposElections(e),
    {
        Error::NposElections(e)
    }
}

impl vstd::std_specs::convert::FromSpecImpl<NposError> for Error {
    open spec fn obeys_from_spec() -> bool {
        true
    }

    open spec fn from_spec(e: NposError) -> Self {
        Error::NposElections(e)
    }
}

/// Sum of the parts of a ratio distribution.
pub open spec fn parts_sum(d: Seq<(u64, u32)>) -> int
    decreases d.len(),
{
    if d.len() == 0 {
        0
    } else {
        parts_sum(d.drop_last()) + d.last().1
    }
}

/// The winners' identifiers, without their approval stake.
pub open spec fn winner_ids(w: Seq<(u64, u128)>) -> Seq<u64> {
    w.map_values(|e: (u64, u128)| e.0)
}

/// The flat support list of the election, `None` where the engine or the
/// normalization fails.
pub open spec fn elect_of(
    to_elect: usize,
    targets: Seq<u64>,
    voters: Seq<(u64, u64, Seq<u64>)>,
) -> Option<Seq<(u64, (u128, Seq<(u64, u128)>))>> {
    match seq_phragmen_of(to_elect, targets, voters) {
        None => None,
        Some((winners, ratios)) => match staked_normalized_of(ratios, stake_index_of(voters)) {
            None => None,
            Some(staked) => Some(supports_of(winner_ids(winners), staked)),
        },
    }
}

proof fn lemma_parts_sum_nonzero(d: Seq<(u64, u32)>)
    requires
        parts_sum(d) > 0,
    ensures
        nonzero_targets(d).len() > 0,
    decreases d.len(),
{
    if d.len() > 0 && d.last().1 == 0 {
        lemma_parts_sum_nonzero(d.drop_last());
    }
}

/// Turns ratio assignments into staked amounts under the stakes of `index`;
/// a voter whose ratios sum to a whole gets amounts that sum to its stake.
pub fn normalize_assignments(ratios: Vec<RatioAssignment>, index: &BTreeMap<u64, u64>) -> (r:
    Result<Vec<StakedAssignment>, Error>)
    ensures
        match staked_normalized_of(ratios_view(ratios@), index@) {
            None => r is Err,
            Some(m) => r matches Ok(s) && staked_view(s@) == m,
        },
        r matches Ok(s) ==> {
            &&& s.len() == ratios.len()
            &&& forall|i: int|
                #![trigger s@[i]]
                0 <= i < s.len() ==> {
                    &&& s@[i].who == ratios@[i].who
                    &&& s@[i].distribution@.map_values(|e: (u64, u128)| e.0) == nonzero_targets(
                        ratios@[i].distribution@,
                    )
                    &&& s@[i].distribution.len() > 0 ==> amount_sum(s@[i].distribution@)
                        == stake_in(index@, s@[i].who)
                    &&& parts_sum(ratios@[i].distribution@) == RATIO_ONE ==> amount_sum(
                        s@[i].distribution@,
                    ) == stake_in(index@, s@[i].who)
                }
        },
{
    let ghost input = ratios@;
    match ratio_to_staked_normalized_call(ratios, index) {
        Ok(s) => {
            assert forall|i: int|
                #![trigger s@[i]]
                0 <= i < s.len() && parts_sum(input[i].distribution@) == RATIO_ONE implies amount_sum(
                s@[i].distribution@,
            ) == stake_in(index@, s@[i].who) by {
                lemma_parts_sum_nonzero(input[i].distribution@);
            }
            Ok(s)
        },
        Err(e) => Err(Error::from(e)),
    }
}

/// The identifiers of the winners, without their approval stake.
fn without_backing(w: &Vec<(u64, u128)>) -> (r: Vec<u64>)
    ensures
        r@ == winner_ids(w@),
{
    let mut r: Vec<u64> = Vec::new();
    let mut i: usize = 0;
    while i < w.len()
        invariant
            i <= w.len(),
            r@ == winner_ids(w@.subrange(0, i as int)),
        decreases w.len() - i,
    {
        r.push(w[i].0);
        i = i + 1;
        assert(r@ =~= winner_ids(w@.subrange(0, i as int)));
    }
    assert(w@.subrange(0, i as int) =~= w@);
    r
}

proof fn lemma_amount_sum_push(a: Seq<(u64, u128)>, e: (u64, u128))
    ensures
        amount_sum(a.push(e)) == amount_sum(a) + e.1,
{
    assert(a.push(e).drop_last() =~= a);
}

proof fn lemma_amount_sum_append(a: Seq<(u64, u128)>, b: Seq<(u64, u128)>)
    ensures
        amount_sum(a + b) == amount_sum(a) + amount_sum(b),
    decreases b.len(),
{
    if b.len() == 0 {
        assert(a + b =~= a);
    } else {
        lemma_amount_sum_append(a, b.drop_last());
        assert((a + b).drop_last() =~= a + b.drop_last());
    }
}

proof fn lemma_edges_to_bounded(who: u64, d: Seq<(u64, u128)>, target: u64)
    ensures
        0 <= amount_sum(edges_to(who, d, target)) <= amount_sum(d),
    decreases d.len(),
{
    if d.len() > 0 {
        lemma_edges_to_bounded(who, d.drop_last(), target);
        if d.last().0 == target {
            lemma_amount_sum_push(edges_to(who, d.drop_last(), target), (who, d.last().1));
        }
    }
}

proof fn lemma_backers_bounded(staked: Seq<(u64, Seq<(u64, u128)>)>, target: u64, cap: int)
    requires
        cap >= 0,
        forall|i: int| 0 <= i < staked.len() ==> amount_sum(#[trigger] staked[i].1) <= cap,
    ensures
        0 <= amount_sum(backers_of(staked, target)) <= staked.len() * cap,
    decreases staked.len(),
{
    if staked.len() > 0 {
        let p = staked.drop_last();
        assert forall|i: int| 0 <= i < p.len() implies amount_sum(#[trigger] p[i].1) <= cap by {
            assert(p[i] == staked[i]);
        }
        lemma_backers_bounded(p, target, cap);
        let last = staked.last();
        lemma_amount_sum_append(backers_of(p, target), edges_to(last.0, last.1, target));
        lemma_edges_to_bounded(last.0, last.1, target);
        assert(amount_sum(last.1) <= cap) by {
            assert(staked[staked.len() - 1] == last);
        }
        assert(p.len() * cap + cap == staked.len() * cap) by (nonlinear_arith)
            requires
                p.len() + 1 == staked.len(),
        ;
    }
}

/// Where no voter's amounts sum past a `u64` and there are at most as many
/// voters as a `u64` counts, every support's total is the exact sum of the
/// amounts of its voters.
pub proof fn lemma_support_totals_exact(winners: Seq<u64>, staked: Seq<(u64, Seq<(u64, u128)>)>)
    requires
        staked.len() <= u64::MAX,
        forall|i: int| 0 <= i < staked.len() ==> amount_sum(#[trigger] staked[i].1) <= u64::MAX,
    ensures
        forall|i: int|
            0 <= i < supports_of(winners, staked).len() ==> (#[trigger] supports_of(
                winners,
                staked,
            )[i]).1.0 == amount_sum(supports_of(winners, staked)[i].1.1),
{
    assert forall|i: int|
        0 <= i < supports_of(winners, staked).len() implies (#[trigger] supports_of(
        winners,
        staked,
    )[i]).1.0 == amount_sum(supports_of(winners, staked)[i].1.1) by {
        let w = first_occurrences(winners)[i];
        lemma_backers_bounded(staked, w, u64::MAX as int);
        assert(staked.len() * (u64::MAX as int) <= u128::MAX) by (nonlinear_arith)
            requires
                staked.len() <= u64::MAX,
        ;
    }
}

/// The election lists only targets that the engine reported as winners, each
/// once.
pub proof fn lemma_elect_winners_only(
    to_elect: usize,
    targets: Seq<u64>,
    voters: Seq<(u64, u64, Seq<u64>)>,
)
    requires
        elect_of(to_elect, targets, voters) is Some,
    ensures
        ({
            let out = elect_of(to_elect, targets, voters)->Some_0;
            let winners = winner_ids(seq_phragmen_of(to_elect, targets, voters)->Some_0.0);
            &&& forall|i: int| 0 <= i < out.len() ==> winners.contains(#[trigger] out[i].0)
            &&& forall|i: int, j: int| 0 <= i < j < out.len() ==> out[i].0 != out[j].0
        }),
{
    let winners = winner_ids(seq_phragmen_of(to_elect, targets, voters)->Some_0.0);
    let f = first_occurrences(winners);
    lemma_first_occurrences(winners);
    let out = elect_of(to_elect, targets, voters)->Some_0;
    assert forall|i: int| 0 <= i < out.len() implies winners.contains(#[trigger] out[i].0) by {
        assert(out[i].0 == f[i]);
        assert(f.contains(f[i]));
    }
    assert forall|i: int, j: int| 0 <= i < j < out.len() implies out[i].0 != out[j].0 by {
        assert(out[i].0 == f[i] && out[j].0 == f[j]);
    }
}

/// The election is a function of its inputs: equal inputs, in equal order,
/// give equal results.
pub proof fn lemma_elect_deterministic(
    to_elect: usize,
    targets: Seq<u64>,
    voters: Seq<(u64, u64, Seq<u64>)>,
    to_elect2: usize,
    targets2: Seq<u64>,
    voters2: Seq<(u64, u64, Seq<u64>)>,
)
    requires
        to_elect == to_elect2,
        targets == targets2,
        voters == voters2,
    ensures
        elect_of(to_elect, targets, voters) == elect_of(to_elect2, targets2, voters2),
{
}

/// The on-chain election by sequential Phragmén.
pub struct OnChainSequentialPhragmen;

impl OnChainSequentialPhragmen {
    /// Every call needs the full election data: nothing is kept between calls.
    pub const NEEDS_ELECT_DATA: bool = true;

    /// Elects up to `to_elect` of `targets` and returns each winner's
    /// support, in the engine's winner order.
    pub fn elect(to_elect: usize, targets: Vec<u64>, voters: Vec<(u64, u64, Vec<u64>)>) -> (r:
        Result<Vec<(u64, Support)>, Error>)
        ensures
            match elect_of(to_elect, targets@, voters.deep_view()) {
                None => r is Err,
                Some(m) => r matches Ok(v) && supports_view(v@) == m,
            },
            r matches Ok(v) ==> {
                &&& v.len() <= to_elect
                &&& targets@.no_duplicates() && to_elect <= targets.len() ==> v.len() == to_elect
                &&& forall|i: int| 0 <= i < v.len() ==> targets@.contains(#[trigger] v@[i].0)
                &&& forall|i: int, j: int| 0 <= i < j < v.len() ==> v@[i].0 != v@[j].0
                &&& forall|i: int|
                    0 <= i < v.len() ==> (#[trigger] v@[i]).1.total == amount_sum(
                        v@[i].1.voters@,
                    )
            },
    {
        let ghost tv = targets@;
        let ghost vv = voters.deep_view();
        let index = build_stake_index(&voters);
        let (winners, ratios) = match seq_phragmen_call(to_elect, targets, voters) {
            Ok(e) => e,
            Err(e) => {
                return Err(Error::from(e));
            },
        };
        let staked = match normalize_assignments(ratios, &index) {
            Ok(s) => s,
            Err(e) => {
                return Err(e);
            },
        };
        let ids = without_backing(&winners);
        let out = build_supports(&ids, &staked);
        proof {
            let sv = staked_view(staked@);
            let m = supports_of(ids@, sv);
            assert forall|i: int| 0 <= i < sv.len() implies amount_sum(#[trigger] sv[i].1)
                <= u64::MAX by {
                assert(sv[i].1 == staked@[i].distribution@);
                if staked@[i].distribution.len() == 0 {
                    assert(amount_sum(sv[i].1) == 0);
                }
            }
            assert(staked.len() <= u64::MAX);
            lemma_support_totals_exact(ids@, sv);
            lemma_first_occurrences(ids@);
            let f = first_occurrences(ids@);
            assert(ids.len() == winners.len());
            assert(forall|j: int| 0 <= j < ids.len() ==> #[trigger] ids@[j] == winners@[j].0);
            assert(forall|j: int| 0 <= j < winners.len() ==> tv.contains(#[trigger] winners@[j].0));
            assert(supports_view(out@).len() == out.len());
            assert(m.len() == f.len());
            assert forall|i: int| 0 <= i < out.len() implies targets@.contains(
                #[trigger] out@[i].0,
            ) by {
                assert(supports_view(out@)[i] == m[i]);
                assert(out@[i].0 == f[i]);
                assert(f.contains(f[i]));
                assert(ids@.contains(f[i]));
                let j = choose|j: int| 0 <= j < ids.len() && ids@[j] == f[i];
                assert(winners@[j].0 == ids@[j]);
                assert(targets@.contains(winners@[j].0));
            }
            assert forall|i: int, j: int| 0 <= i < j < out.len() implies out@[i].0
                != out@[j].0 by {
                assert(supports_view(out@)[i] == m[i]);
                assert(supports_view(out@)[j] == m[j]);
            }
            assert forall|i: int| 0 <= i < out.len() implies (#[trigger] out@[i]).1.total
                == amount_sum(out@[i].1.voters@) by {
                assert(supports_view(out@)[i] == m[i]);
            }
            if tv.no_duplicates() {
                assert(ids@.no_duplicates()) by {
                    assert forall|i: int, j: int| 0 <= i < ids.len() && 0 <= j < ids.len() && i
                        != j implies ids@[i] != ids@[j] by {
                        if i < j {
                            assert(winners@[i].0 != winners@[j].0);
                        } else {
                            assert(winners@[j].0 != winners@[i].0);
                        }
                    }
                }
            }
        }
        Ok(out)
    }

    /// Whether the election goes on over several calls: never.
    pub fn ongoing() -> (r: bool)
        ensures
            !r,
    {
        false
    }
}

} // verus!
