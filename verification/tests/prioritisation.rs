use fruit_prioritisation::error::PrioritisationError;
use fruit_prioritisation::fruit::{Fruit, Species};
use fruit_prioritisation::pipeline::PrioritisationBuilder;
use fruit_prioritisation::service::{
    prioritise_height, prioritise_species, FruitPrioritisationService,
};
use fruit_prioritisation::stage::RankingStage;

fn input_data() -> Vec<Fruit> {
    vec![
        Fruit::new(Species::Apple, 1),
        Fruit::new(Species::Apple, 2),
        Fruit::new(Species::Pear, 1),
        Fruit::new(Species::Pear, 2),
    ]
}

fn reversed_input_data() -> Vec<Fruit> {
    let mut data = input_data();
    data.reverse();
    data
}

#[test]
fn prioritises_greater_height_then_apples_over_pears() {
    let under_test = FruitPrioritisationService::new();
    let fruit_input: Vec<Fruit> = input_data();

    let prioritised = under_test.prioritise(fruit_input);

    let first = prioritised.first().unwrap().clone();
    assert_eq!(*first.species(), Species::Apple);
    assert_eq!(*first.height(), 2);

    let second = prioritised[1].clone();
    assert_eq!(*second.species(), Species::Pear);
    assert_eq!(*second.height(), 2);
}

#[test]
fn prioritises_greater_height_then_apples_over_pears_with_reversed_input() {
    let under_test = FruitPrioritisationService::new();
    let fruit_input: Vec<Fruit> = reversed_input_data();

    let prioritised = under_test.prioritise(fruit_input);

    let first = prioritised.first().unwrap().clone();
    assert_eq!(*first.species(), Species::Apple);
    assert_eq!(*first.height(), 2);

    let second = prioritised[1].clone();
    assert_eq!(*second.species(), Species::Pear);
    assert_eq!(*second.height(), 2);
}

#[test]
fn full_ranking_of_the_reference_scenario() {
    let under_test = FruitPrioritisationService::new();
    let prioritised = under_test.prioritise(input_data());
    assert_eq!(
        prioritised,
        vec![
            Fruit::new(Species::Apple, 2),
            Fruit::new(Species::Pear, 2),
            Fruit::new(Species::Apple, 1),
            Fruit::new(Species::Pear, 1),
        ]
    );
}

#[test]
fn prioritise_returns_a_permutation_of_its_input() {
    let under_test = FruitPrioritisationService::new();
    let input = input_data();
    let prioritised = under_test.prioritise(input.clone());
    assert_eq!(prioritised.len(), input.len());
    for fruit in &input {
        let in_input = input.iter().filter(|f| *f == fruit).count();
        let in_output = prioritised.iter().filter(|f| *f == fruit).count();
        assert_eq!(in_input, in_output);
    }
}

#[test]
fn height_stage_is_stable_for_equal_heights() {
    let input = vec![
        Fruit::new(Species::Pear, 5),
        Fruit::new(Species::Apple, 5),
        Fruit::new(Species::Pear, 3),
        Fruit::new(Species::Apple, 5),
    ];
    let ranked = prioritise_height(input);
    assert_eq!(
        ranked,
        vec![
            Fruit::new(Species::Pear, 5),
            Fruit::new(Species::Apple, 5),
            Fruit::new(Species::Apple, 5),
            Fruit::new(Species::Pear, 3),
        ]
    );
}

#[test]
fn species_stage_is_stable_and_ranks_apples_first() {
    let input = vec![
        Fruit::new(Species::Pear, 1),
        Fruit::new(Species::Apple, 2),
        Fruit::new(Species::Pear, 4),
        Fruit::new(Species::Apple, 3),
    ];
    let ranked = prioritise_species(input);
    assert_eq!(
        ranked,
        vec![
            Fruit::new(Species::Apple, 2),
            Fruit::new(Species::Apple, 3),
            Fruit::new(Species::Pear, 1),
            Fruit::new(Species::Pear, 4),
        ]
    );
}

#[test]
fn every_permutation_of_the_scenario_gives_the_same_ranking() {
    let under_test = FruitPrioritisationService::new();
    let expected = under_test.prioritise(input_data());
    let base = input_data();
    // All orderings of four distinct fruit, generated by repeated removal.
    for a in 0..4 {
        for b in 0..3 {
            for c in 0..2 {
                let mut rest = base.clone();
                let mut permuted = Vec::new();
                permuted.push(rest.remove(a));
                permuted.push(rest.remove(b));
                permuted.push(rest.remove(c));
                permuted.push(rest.remove(0));
                assert_eq!(under_test.prioritise(permuted), expected);
            }
        }
    }
}

#[test]
fn height_dominates_species_in_the_service_order() {
    let under_test = FruitPrioritisationService::new();
    let ranked = under_test.prioritise(vec![
        Fruit::new(Species::Apple, 1),
        Fruit::new(Species::Pear, 10),
    ]);
    assert_eq!(*ranked[0].species(), Species::Pear);
    assert_eq!(*ranked[0].height(), 10);
}

#[test]
fn empty_category_order_is_a_configuration_error() {
    let stage = RankingStage::Categorical { order: vec![] };
    let outcome = stage.apply(vec![Fruit::new(Species::Apple, 1)]);
    assert_eq!(
        outcome,
        Err(PrioritisationError::Configuration {
            species: Species::Apple
        })
    );
}

#[test]
fn configuration_error_reports_the_first_missing_species() {
    let stage = RankingStage::Categorical {
        order: vec![Species::Apple],
    };
    let outcome = stage.apply(vec![
        Fruit::new(Species::Apple, 1),
        Fruit::new(Species::Pear, 2),
        Fruit::new(Species::Pear, 3),
    ]);
    assert_eq!(
        outcome,
        Err(PrioritisationError::Configuration {
            species: Species::Pear
        })
    );
}

#[test]
fn zero_stage_pipeline_is_the_identity() {
    let input = input_data();
    let outcome = PrioritisationBuilder::new().execute(input.clone());
    assert_eq!(outcome, Ok(input));
}

#[test]
fn single_stage_pipeline_ranks_by_that_stage() {
    let outcome = PrioritisationBuilder::first(RankingStage::Numeric).execute(input_data());
    assert_eq!(
        outcome,
        Ok(vec![
            Fruit::new(Species::Apple, 2),
            Fruit::new(Species::Pear, 2),
            Fruit::new(Species::Apple, 1),
            Fruit::new(Species::Pear, 1),
        ])
    );
}

#[test]
fn a_reversed_category_order_ranks_pears_first() {
    let stage = RankingStage::Categorical {
        order: vec![Species::Pear, Species::Apple],
    };
    let outcome = stage.apply(input_data());
    assert_eq!(
        outcome,
        Ok(vec![
            Fruit::new(Species::Pear, 1),
            Fruit::new(Species::Pear, 2),
            Fruit::new(Species::Apple, 1),
            Fruit::new(Species::Apple, 2),
        ])
    );
}

#[test]
fn top_selects_the_single_best_fruit() {
    let under_test = FruitPrioritisationService::new();
    assert_eq!(
        under_test.top(input_data()),
        Ok(Fruit::new(Species::Apple, 2))
    );
}

#[test]
fn top_of_an_empty_collection_is_an_explicit_error() {
    let under_test = FruitPrioritisationService::new();
    assert_eq!(under_test.top(vec![]), Err(PrioritisationError::EmptyInput));
}

#[test]
fn full_ranking_of_an_empty_collection_is_empty() {
    let under_test = FruitPrioritisationService::new();
    assert_eq!(under_test.prioritise(vec![]), vec![]);
}

#[test]
fn extreme_heights_are_ranked_without_overflow() {
    let under_test = FruitPrioritisationService::new();
    let ranked = under_test.prioritise(vec![
        Fruit::new(Species::Pear, usize::MAX),
        Fruit::new(Species::Apple, usize::MAX),
        Fruit::new(Species::Apple, 0),
    ]);
    assert_eq!(
        ranked,
        vec![
            Fruit::new(Species::Apple, usize::MAX),
            Fruit::new(Species::Pear, usize::MAX),
            Fruit::new(Species::Apple, 0),
        ]
    );
}
