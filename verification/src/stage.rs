use vstd::prelude::*;

use crate::fruit::{Fruit, Species};

verus! {

/// Position of `sp` in the category order: the first index holding `sp`, or
/// `order.len()` when `sp` is absent. Earlier positions rank higher.
pub open spec fn species_rank(order: Seq<Species>, sp: Species) -> int
    decreases order.len(),
{
    if order.len() == 0 {
        0
    } else if order[0] == sp {
        0
    } else {
        1 + species_rank(order.subrange(1, order.len() as int), sp)
    }
}

/// Whether the category order lists `sp` at all.
pub open spec fn species_in(order: Seq<Species>, sp: Species) -> bool {
    species_rank(order, sp) < order.len()
}

/// Skipping a prefix that does not hold `sp` shifts the rank by the prefix's
/// length.
pub proof fn lemma_species_rank_skip(order: Seq<Species>, sp: Species, i: int)
    requires
        0 <= i <= order.len(),
        forall|j: int| 0 <= j < i ==> order[j] != sp,
    ensures
        species_rank(order, sp) == i + species_rank(
            order.subrange(i, order.len() as int),
            sp,
        ),
    decreases i,
{
    if i == 0 {
        assert(order.subrange(0, order.len() as int) =~= order);
    } else {
        let rest = order.subrange(1, order.len() as int);
        lemma_species_rank_skip(rest, sp, i - 1);
        assert(rest.subrange(i - 1, rest.len() as int) =~= order.subrange(
            i,
            order.len() as int,
        ));
    }
}

/// First index of `sp` in `order`, or `order.len()` when `sp` is absent.
pub fn rank_of(order: &Vec<Species>, sp: Species) -> (r: usize)
    ensures
        r == species_rank(order@, sp),
{
    let mut i: usize = 0;
    while i < order.len()
        invariant
            i <= order@.len(),
            forall|j: int| 0 <= j < i ==> order@[j] != sp,
        decreases order@.len() - i,
    {
        if order[i] == sp {
            proof {
                lemma_species_rank_skip(order@, sp, i as int);
            }
            return i;
        }
        i += 1;
    }
    proof {
        lemma_species_rank_skip(order@, sp, i as int);
    }
    i
}

/// Ghost description of a ranking stage: which attribute it ranks by, and,
/// for the categorical stage, under which category order.
pub enum StageSpec {
    Categorical { order: Seq<Species> },
    Numeric,
}

/// One ranking criterion: a stateless, total, stable re-ordering of a
/// sequence of fruit by exactly one attribute.
pub enum RankingStage {
    /// Rank by species, by its position in the explicit category order.
    Categorical { order: Vec<Species> },
    /// Rank by height, tallest first.
    Numeric,
}

impl View for RankingStage {
    type V = StageSpec;

    open spec fn view(&self) -> StageSpec {
        match self {
            RankingStage::Categorical { order } => StageSpec::Categorical { order: order@ },
            RankingStage::Numeric => StageSpec::Numeric,
        }
    }
}

/// Sort key of `f` under stage `st`: stages sort ascending by key, so the
/// numeric stage's key is the height negated (larger heights first).
pub open spec fn stage_key(st: StageSpec, f: Fruit) -> int {
    match st {
        StageSpec::Categorical { order } => species_rank(order, f.species),
        StageSpec::Numeric => -(f.height as int),
    }
}

/// Whether the stage can compare `f`: the categorical stage demands that the
/// category order list the fruit's species.
pub open spec fn stage_accepts_item(st: StageSpec, f: Fruit) -> bool {
    match st {
        StageSpec::Categorical { order } => species_in(order, f.species),
        StageSpec::Numeric => true,
    }
}

/// Whether the stage can rank the whole sequence.
pub open spec fn stage_accepts(st: StageSpec, s: Seq<Fruit>) -> bool {
    forall|i: int| 0 <= i < s.len() ==> stage_accepts_item(st, s[i])
}

/// Acceptance only looks at which fruit occur, not where: it carries over
/// between sequences with equal multisets.
pub proof fn lemma_stage_accepts_multiset(st: StageSpec, s: Seq<Fruit>, t: Seq<Fruit>)
    requires
        s.to_multiset() == t.to_multiset(),
        stage_accepts(st, s),
    ensures
        stage_accepts(st, t),
{
    broadcast use vstd::seq_lib::group_to_multiset_ensures;

    assert forall|i: int| 0 <= i < t.len() implies stage_accepts_item(st, t[i]) by {
        assert(t.contains(t[i]));
        assert(s.to_multiset().count(t[i]) > 0);
        assert(s.contains(t[i]));
        let j = choose|j: int| 0 <= j < s.len() && s[j] == t[i];
        assert(stage_accepts_item(st, s[j]));
    }
}

impl RankingStage {
    /// True when `a` must come strictly after `b` under this stage.
    pub(crate) fn comes_after(&self, a: &Fruit, b: &Fruit) -> (r: bool)
        ensures
            r == (stage_key(self@, *a) > stage_key(self@, *b)),
    {
        match self {
            RankingStage::Categorical { order } => {
                rank_of(order, a.species) > rank_of(order, b.species)
            },
            RankingStage::Numeric => a.height < b.height,
        }
    }
}

} // verus!
