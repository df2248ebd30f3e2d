use vstd::prelude::*;

verus! {

/// A voter's support, in parts per billion of its stake, per target.
#[derive(Debug, PartialEq, Eq)]
pub struct RatioAssignment {
    pub who: u64,
    pub distribution: Vec<(u64, u32)>,
}

/// A voter's support as absolute amounts per target.
#[derive(Debug, PartialEq, Eq)]
pub struct StakedAssignment {
    pub who: u64,
    pub distribution: Vec<(u64, u128)>,
}

/// The backing of one winner: its total and the contributing voters.
#[derive(Debug, PartialEq, Eq)]
pub struct Support {
    pub total: u128,
    pub voters: Vec<(u64, u128)>,
}

impl View for RatioAssignment {
    type V = (u64, Seq<(u64, u32)>);

    open spec fn view(&self) -> (u64, Seq<(u64, u32)>) {
        (self.who, self.distribution@)
    }
}

impl View for StakedAssignment {
    type V = (u64, Seq<(u64, u128)>);

    open spec fn view(&self) -> (u64, Seq<(u64, u128)>) {
        (self.who, self.distribution@)
    }
}

impl View for Support {
    type V = (u128, Seq<(u64, u128)>);

    open spec fn view(&self) -> (u128, Seq<(u64, u128)>) {
        (self.total, self.voters@)
    }
}

/// The model of a list of ratio assignments.
pub open spec fn ratios_view(s: Seq<RatioAssignment>) -> Seq<(u64, Seq<(u64, u32)>)> {
    s.map_values(|a: RatioAssignment| a@)
}

/// The model of a list of staked assignments.
pub open spec fn staked_view(s: Seq<StakedAssignment>) -> Seq<(u64, Seq<(u64, u128)>)> {
    s.map_values(|a: StakedAssignment| a@)
}

/// The model of a flat list of supports.
pub open spec fn supports_view(s: Seq<(u64, Support)>) -> Seq<(u64, (u128, Seq<(u64, u128)>))> {
    s.map_values(|e: (u64, Support)| (e.0, e.1@))
}

/// Sum of the amounts of a list of (identifier, amount) pairs.
pub open spec fn amount_sum(e: Seq<(u64, u128)>) -> int
    decreases e.len(),
{
    if e.len() == 0 {
        0
    } else {
        amount_sum(e.drop_last()) + e.last().1
    }
}

/// Copies a list of (identifier, amount) pairs.
pub fn copy_amounts(e: &Vec<(u64, u128)>) -> (r: Vec<(u64, u128)>)
    ensures
        r@ == e@,
{
    let mut r: Vec<(u64, u128)> = Vec::new();
    let mut i: usize = 0;
    while i < e.len()
        invariant
            i <= e.len(),
            r@ == e@.subrange(0, i as int),
        decreases e.len() - i,
    {
        r.push(e[i]);
        i = i + 1;
    }
    assert(r@ =~= e@);
    r
}

impl Support {
    /// A copy of this support.
    pub fn duplicate(&self) -> (r: Support)
        ensures
            r@ == self@,
    {
        Support { total: self.total, voters: copy_amounts(&self.voters) }
    }
}

} // verus!
