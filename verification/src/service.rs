use vstd::prelude::*;

use crate::error::PrioritisationError;
use crate::fruit::{Fruit, Species};
use crate::laws::lemma_execute_permutes;
use crate::pipeline::{execute_spec, pipeline_accepts, PrioritisationBuilder};
use crate::sorting::stage_sort;
use crate::stage::{species_in, species_rank, RankingStage, StageSpec};

verus! {

/// The category order the service declares: apples rank above pears.
pub open spec fn service_species_order() -> Seq<Species> {
    seq![Species::Apple, Species::Pear]
}

/// The stages the service registers, in precedence order: height first
/// (primary criterion), species second (tie-break).
pub open spec fn service_stages() -> Seq<StageSpec> {
    seq![
        StageSpec::Numeric,
        (StageSpec::Categorical { order: service_species_order() }),
    ]
}

/// The service's category order covers the whole species domain.
pub proof fn lemma_service_order_exhaustive(sp: Species)
    ensures
        species_in(service_species_order(), sp),
{
    let order = service_species_order();
    match sp {
        Species::Apple => {
            assert(species_rank(order, sp) == 0);
        },
        Species::Pear => {
            assert(order[0] != sp);
            let rest = order.subrange(1, order.len() as int);
            assert(rest =~= seq![Species::Pear]);
            assert(species_rank(rest, sp) == 0);
            assert(species_rank(order, sp) == 1);
        },
    }
}

/// The executable form of the service's category order.
pub fn species_order() -> (r: Vec<Species>)
    ensures
        r@ == service_species_order(),
{
    let mut v: Vec<Species> = Vec::new();
    v.push(Species::Apple);
    v.push(Species::Pear);
    proof {
        assert(v@ =~= service_species_order());
    }
    v
}

/// Ranks fruit by species under the service's category order; stable, and
/// total because that order covers the whole species domain.
pub fn prioritise_species(input: Vec<Fruit>) -> (r: Vec<Fruit>)
    ensures
        r@ == stage_sort((StageSpec::Categorical { order: service_species_order() }), input@),
{
    let stage = RankingStage::Categorical { order: species_order() };
    stage.rank(input)
}

/// Ranks fruit by height, tallest first; stable.
pub fn prioritise_height(input: Vec<Fruit>) -> (r: Vec<Fruit>)
    ensures
        r@ == stage_sort(StageSpec::Numeric, input@),
{
    let stage = RankingStage::Numeric;
    stage.rank(input)
}

/// The public facade: prioritises fruit by height, breaking height ties by
/// the fixed species order.
pub struct FruitPrioritisationService;

impl FruitPrioritisationService {
    pub fn new() -> (r: Self) {
        FruitPrioritisationService
    }

    /// The full ranking: height dominates (tallest first), the species order
    /// breaks ties (apples before pears). A pure function of the input
    /// multiset: see `lemma_prioritise_order_independent`.
    pub fn prioritise(&self, fruit: Vec<Fruit>) -> (r: Vec<Fruit>)
        ensures
            r@ == execute_spec(service_stages(), fruit@),
    {
        let builder = PrioritisationBuilder::first(RankingStage::Numeric).chain(
            RankingStage::Categorical { order: species_order() },
        );
        proof {
            assert(builder@ =~= service_stages());
            assert forall|k: int|
                0 <= k < service_stages().len() implies crate::stage::stage_accepts(
                #[trigger] service_stages()[k],
                fruit@,
            ) by {
                assert forall|i: int|
                    0 <= i < fruit@.len() implies crate::stage::stage_accepts_item(
                    service_stages()[k],
                    #[trigger] fruit@[i],
                ) by {
                    lemma_service_order_exhaustive(fruit@[i].species);
                }
            }
            assert(pipeline_accepts(builder@, fruit@));
        }
        match builder.execute(fruit) {
            Ok(v) => v,
            Err(_) => {
                proof {
                    assert(false);
                }
                Vec::new()
            },
        }
    }

    /// The single top-ranked fruit, or an explicit error on empty input
    /// rather than undefined indexing.
    pub fn top(&self, fruit: Vec<Fruit>) -> (r: Result<Fruit, PrioritisationError>)
        ensures
            fruit@.len() == 0 ==> r == Err::<Fruit, PrioritisationError>(
                PrioritisationError::EmptyInput,
            ),
            fruit@.len() > 0 ==> r == Ok::<Fruit, PrioritisationError>(
                execute_spec(service_stages(), fruit@)[0],
            ),
    {
        if fruit.len() == 0 {
            return Err(PrioritisationError::EmptyInput);
        }
        let ghost fruit_view = fruit@;
        let ranked = self.prioritise(fruit);
        proof {
            broadcast use vstd::seq_lib::group_to_multiset_ensures;

            lemma_execute_permutes(service_stages(), fruit_view);
            assert(ranked@.to_multiset().len() == ranked@.len());
            assert(fruit_view.to_multiset().len() == fruit_view.len());
            assert(ranked@.len() == fruit_view.len());
        }
        Ok(ranked[0])
    }
}

} // verus!
