use sp_std::collections::btree_map::BTreeMap;
use vstd::prelude::*;

verus! {

/// The stake of each voter, where a later entry for the same voter replaces
/// an earlier one.
pub open spec fn stake_index_of(voters: Seq<(u64, u64, Seq<u64>)>) -> Map<u64, u64>
    decreases voters.len(),
{
    if voters.len() == 0 {
        Map::empty()
    } else {
        stake_index_of(voters.drop_last()).insert(voters.last().0, voters.last().1)
    }
}

/// The stake recorded for `who`, zero for an identifier that is not indexed.
pub open spec fn stake_in(index: Map<u64, u64>, who: u64) -> u64 {
    if index.contains_key(who) {
        index[who]
    } else {
        0
    }
}

/// Builds the lookup from voter identifier to stake.
pub fn build_stake_index(voters: &Vec<(u64, u64, Vec<u64>)>) -> (r: BTreeMap<u64, u64>)
    ensures
        r@ == stake_index_of(voters.deep_view()),
{
    let mut index: BTreeMap<u64, u64> = BTreeMap::new();
    let mut i: usize = 0;
    while i < voters.len()
        invariant
            i <= voters.len(),
            index@ == stake_index_of(voters.deep_view().subrange(0, i as int)),
        decreases voters.len() - i,
    {
        let ghost prefix = voters.deep_view().subrange(0, i as int + 1);
        assert(prefix.drop_last() =~= voters.deep_view().subrange(0, i as int));
        index.insert(voters[i].0, voters[i].1);
        i = i + 1;
    }
    assert(voters.deep_view().subrange(0, i as int) =~= voters.deep_view());
    index
}

/// The stake of `who`; an identifier absent from the index has no stake.
pub fn stake_of(index: &BTreeMap<u64, u64>, who: &u64) -> (r: u64)
    ensures
        r == stake_in(index@, *who),
        !index@.contains_key(*who) ==> r == 0,
{
    match index.get(who) {
        Some(s) => *s,
        None => 0,
    }
}

} // verus!
