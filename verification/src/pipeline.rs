use vstd::prelude::*;

use crate::error::PrioritisationError;
use crate::fruit::Fruit;
use crate::laws::lemma_execute_permutes;
use crate::sorting::stage_sort;
use crate::stage::{
    lemma_stage_accepts_multiset, stage_accepts, stage_accepts_item, RankingStage, StageSpec,
};

verus! {

/// What a pipeline returns: the registered stages run in reverse registration
/// order, so the first-registered stage sorts last and dominates the result.
pub open spec fn execute_spec(stages: Seq<StageSpec>, s: Seq<Fruit>) -> Seq<Fruit>
    decreases stages.len(),
{
    if stages.len() == 0 {
        s
    } else {
        stage_sort(stages[0], execute_spec(stages.drop_first(), s))
    }
}

/// Whether every registered stage can rank the input: each category order
/// covers every species present.
pub open spec fn pipeline_accepts(stages: Seq<StageSpec>, s: Seq<Fruit>) -> bool {
    forall|k: int| 0 <= k < stages.len() ==> stage_accepts(#[trigger] stages[k], s)
}

/// An ordered composition of ranking stages, assembled in precedence order:
/// the first-registered criterion ranks highest. Immutable once built and
/// consumed by `execute`.
pub struct PrioritisationBuilder {
    stages: Vec<RankingStage>,
}

impl View for PrioritisationBuilder {
    type V = Seq<StageSpec>;

    closed spec fn view(&self) -> Seq<StageSpec> {
        self.stages@.map_values(|st: RankingStage| st@)
    }
}

impl PrioritisationBuilder {
    /// A pipeline with no stages; executing it is the identity.
    pub fn new() -> (r: Self)
        ensures
            r@ == Seq::<StageSpec>::empty(),
    {
        let r = PrioritisationBuilder { stages: Vec::new() };
        proof {
            assert(r@ =~= Seq::<StageSpec>::empty());
        }
        r
    }

    /// Appends `stage` with lower precedence than everything registered so
    /// far; the worker behind `first` and `then`.
    pub(crate) fn chain(self, stage: RankingStage) -> (r: Self)
        ensures
            r@ == self@.push(stage@),
    {
        let mut stages = self.stages;
        let ghost before = stages@;
        stages.push(stage);
        let r = PrioritisationBuilder { stages };
        proof {
            assert(r@ =~= before.map_values(|st: RankingStage| st@).push(stage@));
        }
        r
    }

    /// Starts a pipeline whose sole (and highest-precedence) stage is `stage`.
    pub fn first(stage: RankingStage) -> (r: Self)
        ensures
            r@ == seq![stage@],
    {
        let r = PrioritisationBuilder::new().chain(stage);
        proof {
            assert(r@ =~= seq![stage@]);
        }
        r
    }

    /// Appends `stage` as the next tie-breaking criterion: a fluent,
    /// value-returning step that hands the grown pipeline back.
    pub fn then(self, stage: RankingStage) -> (r: Self)
        ensures
            r@ == self@.push(stage@),
    {
        self.chain(stage)
    }

    /// Runs the registered stages over `input` in reverse registration order
    /// (an explicit fold over the reversed stage list), consuming the builder.
    /// Fails if and only if some stage's category order misses a species
    /// present in the input; the error reports such a species.
    pub fn execute(self, input: Vec<Fruit>) -> (r: Result<Vec<Fruit>, PrioritisationError>)
        ensures
            r is Ok <==> pipeline_accepts(self@, input@),
            r matches Ok(out) ==> out@ == execute_spec(self@, input@),
            r matches Err(e) ==> exists|k: int, i: int|
                0 <= k < self@.len() && 0 <= i < input@.len() && !stage_accepts_item(
                    #[trigger] self@[k],
                    #[trigger] input@[i],
                ) && e == (PrioritisationError::Configuration { species: input@[i].species }),
    {
        let mut current = input;
        let mut k: usize = self.stages.len();
        while k > 0
            invariant
                k <= self.stages@.len(),
                self@ == self.stages@.map_values(|st: RankingStage| st@),
                self@.len() == self.stages@.len(),
                current@ == execute_spec(self@.subrange(k as int, self@.len() as int), input@),
                forall|m: int|
                    k <= m < self@.len() ==> stage_accepts(#[trigger] self@[m], input@),
            decreases k,
        {
            k -= 1;
            let ghost st = self@[k as int];
            let ghost rest = self@.subrange(k as int + 1, self@.len() as int);
            let ghost before = current@;
            proof {
                broadcast use vstd::seq_lib::group_to_multiset_ensures;

                lemma_execute_permutes(rest, input@);
            }
            current = match self.stages[k].apply(current) {
                Ok(v) => v,
                Err(e) => {
                    proof {
                        broadcast use vstd::seq_lib::group_to_multiset_ensures;

                        let i = choose|i: int|
                            0 <= i < before.len() && !stage_accepts_item(st, #[trigger] before[i])
                                && e == (PrioritisationError::Configuration {
                                species: before[i].species,
                            });
                        assert(before.contains(before[i]));
                        assert(before.to_multiset().count(before[i]) > 0);
                        assert(input@.contains(before[i]));
                        let i2 = choose|i2: int|
                            0 <= i2 < input@.len() && input@[i2] == before[i];
                        assert(!stage_accepts_item(st, input@[i2]));
                        if stage_accepts(st, input@) {
                            lemma_stage_accepts_multiset(st, input@, before);
                            assert(stage_accepts_item(st, before[i]));
                        }
                        assert(0 <= k < self@.len() && 0 <= i2 < input@.len()
                            && !stage_accepts_item(self@[k as int], input@[i2]) && e
                            == (PrioritisationError::Configuration {
                            species: input@[i2].species,
                        }));
                    }
                    return Err(e);
                },
            };
            proof {
                let sub = self@.subrange(k as int, self@.len() as int);
                assert(sub.drop_first() =~= rest);
                assert(sub[0] == st);
                assert(current@ == stage_sort(st, before));
                assert(stage_accepts(st, before));
                lemma_stage_accepts_multiset(st, before, input@);
            }
        }
        proof {
            assert(self@.subrange(0, self@.len() as int) =~= self@);
        }
        Ok(current)
    }
}

} // verus!
