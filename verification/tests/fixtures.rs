use mercy::prefix::fixtures::{
    general_fixtures, model_flat_fixture, model_long_tail_fixture, model_peaked_fixture, model_shaped_fixtures,
    ones_fixture, patterned_fixture,
};

#[test]
fn fixture_families_are_named() {
    let general: Vec<&str> = general_fixtures().iter().map(|fixture| fixture.name).collect();
    assert_eq!(general, vec!["patterned", "ones"]);
    let shaped: Vec<&str> = model_shaped_fixtures().iter().map(|fixture| fixture.name).collect();
    assert_eq!(shaped, vec!["model-flat", "model-peaked", "model-long-tail"]);
}

#[test]
fn patterned_and_ones_inputs_are_exact() {
    assert_eq!(patterned_fixture().generate(4), vec![19, 92, 165, 238]);
    assert_eq!(patterned_fixture().generate(0), Vec::<u8>::new());
    assert_eq!(ones_fixture().generate(3), vec![1, 1, 1]);
}

#[test]
fn model_shaped_inputs_are_ranked_hazards() {
    assert_eq!(model_flat_fixture().generate(4), vec![64, 85, 128, 255]);
    assert_eq!(model_peaked_fixture().generate(2), vec![252, 255]);
    assert_eq!(model_long_tail_fixture().generate(3), vec![153, 128, 255]);
    assert_eq!(model_flat_fixture().generate(0), Vec::<u8>::new());
}
