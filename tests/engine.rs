use cellular::life::{neighbourhood_life, rule_life, LifeNeighbourhood, LifeRule, LifeStates};
use cellular::text::{encode_world, generate_world};
use cellular::world::{apply_rule, step_time, Cell, World};

fn cell(state: LifeStates, pos: &[i64]) -> Cell<LifeStates> {
    (state, pos.to_vec())
}

fn alive_positions(world: &World<LifeStates>) -> Vec<Vec<i64>> {
    let mut out = Vec::new();
    for (s, p) in world {
        if *s == LifeStates::Alive {
            out.push(p.clone());
        }
    }
    out
}

fn step_life(world: World<LifeStates>) -> World<LifeStates> {
    step_time(world, &LifeRule, &LifeNeighbourhood)
}

#[test]
fn rule_life_underpopulation_kills() {
    let a = cell(LifeStates::Alive, &[0, 0]);
    assert_eq!(rule_life(&LifeStates::Alive, vec![]), LifeStates::Dead);
    assert_eq!(rule_life(&LifeStates::Alive, vec![&a]), LifeStates::Dead);
}

#[test]
fn rule_life_survival_with_two_or_three() {
    let a = cell(LifeStates::Alive, &[0, 0]);
    let d = cell(LifeStates::Dead, &[0, 1]);
    assert_eq!(rule_life(&LifeStates::Alive, vec![&a, &d, &a]), LifeStates::Alive);
    assert_eq!(rule_life(&LifeStates::Alive, vec![&a, &a, &a]), LifeStates::Alive);
}

#[test]
fn rule_life_overpopulation_kills() {
    let a = cell(LifeStates::Alive, &[0, 0]);
    assert_eq!(rule_life(&LifeStates::Alive, vec![&a, &a, &a, &a]), LifeStates::Dead);
}

#[test]
fn rule_life_birth_needs_exactly_three() {
    let a = cell(LifeStates::Alive, &[0, 0]);
    let d = cell(LifeStates::Dead, &[0, 1]);
    assert_eq!(rule_life(&LifeStates::Dead, vec![&a, &a, &a, &d]), LifeStates::Alive);
    assert_eq!(rule_life(&LifeStates::Dead, vec![&a, &a]), LifeStates::Dead);
    assert_eq!(rule_life(&LifeStates::Dead, vec![&a, &a, &a, &a]), LifeStates::Dead);
}

#[test]
fn moore_neighbourhood_in_two_dimensions() {
    let world = generate_world("000\n000\n000");
    let centre = neighbourhood_life(&world, vec![1, 1]);
    assert_eq!(centre.len(), 8);
    assert!(centre.iter().all(|c| c.1 != vec![1, 1]));
    let corner = neighbourhood_life(&world, vec![0, 0]);
    let got: Vec<Vec<i64>> = corner.iter().map(|c| c.1.clone()).collect();
    assert_eq!(got, vec![vec![0, 1], vec![1, 0], vec![1, 1]]);
}

#[test]
fn moore_neighbourhood_in_three_dimensions() {
    let mut world: World<LifeStates> = Vec::new();
    for x in 0..3 {
        for y in 0..3 {
            for z in 0..3 {
                world.push(cell(LifeStates::Dead, &[x, y, z]));
            }
        }
    }
    assert_eq!(neighbourhood_life(&world, vec![1, 1, 1]).len(), 26);
    assert_eq!(neighbourhood_life(&world, vec![0, 0, 0]).len(), 7);
}

#[test]
fn moore_neighbourhood_at_the_integer_limits() {
    let world = vec![
        cell(LifeStates::Alive, &[i64::MAX]),
        cell(LifeStates::Alive, &[i64::MIN]),
        cell(LifeStates::Alive, &[i64::MAX - 1]),
    ];
    let got = neighbourhood_life(&world, vec![i64::MAX]);
    assert_eq!(got.len(), 1);
    assert_eq!(got[0].1, vec![i64::MAX - 1]);
    assert_eq!(neighbourhood_life(&world, vec![i64::MIN]).len(), 0);
}

#[test]
fn apply_rule_keeps_position() {
    let world = generate_world("##\n#0");
    let next = apply_rule(&world, &LifeRule, &LifeNeighbourhood, &world[3]);
    assert_eq!(next, cell(LifeStates::Alive, &[1, 1]));
    let next = apply_rule(&world, &LifeRule, &LifeNeighbourhood, &world[0]);
    assert_eq!(next, cell(LifeStates::Alive, &[0, 0]));
}

#[test]
fn decode_positions_and_states() {
    let world = generate_world("#x\n\n0#a\r\n#");
    let expected = vec![
        cell(LifeStates::Alive, &[0, 0]),
        cell(LifeStates::Dead, &[0, 1]),
        cell(LifeStates::Dead, &[2, 0]),
        cell(LifeStates::Alive, &[2, 1]),
        cell(LifeStates::Dead, &[2, 2]),
        cell(LifeStates::Alive, &[3, 0]),
    ];
    assert_eq!(world, expected);
}

#[test]
fn decode_empty_and_trailing_newline() {
    assert!(generate_world("").is_empty());
    assert_eq!(generate_world("#\n"), vec![cell(LifeStates::Alive, &[0, 0])]);
    assert_eq!(generate_world("\n#").len(), 1);
    assert_eq!(generate_world("\n#")[0].1, vec![1, 0]);
}

#[test]
fn encode_empty_world_is_empty() {
    let world: World<LifeStates> = Vec::new();
    assert_eq!(encode_world(&world), "");
}

#[test]
fn encode_breaks_after_greatest_column() {
    let world = vec![
        cell(LifeStates::Alive, &[0, 0]),
        cell(LifeStates::Dead, &[0, 1]),
        cell(LifeStates::Dead, &[1, 0]),
        cell(LifeStates::Alive, &[1, 1]),
    ];
    assert_eq!(encode_world(&world), "#0\n0#\n");
}

#[test]
fn round_trip_canonicalises() {
    let text = "#.x\nab#\n";
    assert_eq!(encode_world(&generate_world(text)), "#00\n00#\n");
    let text = "0#0\n#0#";
    assert_eq!(encode_world(&generate_world(text)), "0#0\n#0#\n");
}

#[test]
fn step_keeps_count_and_positions() {
    let world = generate_world("#0#\n##0\n0#\n");
    let before: Vec<Vec<i64>> = world.iter().map(|c| c.1.clone()).collect();
    let next = step_life(world.clone());
    let after: Vec<Vec<i64>> = next.iter().map(|c| c.1.clone()).collect();
    assert_eq!(next.len(), world.len());
    assert_eq!(before, after);
}

#[test]
fn step_is_deterministic() {
    let world = generate_world("#0#0\n##00\n0#0#\n");
    assert_eq!(step_life(world.clone()), step_life(world));
}

#[test]
fn still_life_block_is_unchanged() {
    let world = generate_world("0000\n0##0\n0##0\n0000");
    let next = step_life(world.clone());
    assert_eq!(next, world);
}

#[test]
fn blinker_oscillates_with_period_two() {
    let world = generate_world("0#0\n0#0\n0#0");
    let once = step_life(world.clone());
    assert_eq!(alive_positions(&once), vec![vec![1, 0], vec![1, 1], vec![1, 2]]);
    let twice = step_life(once);
    assert_eq!(alive_positions(&twice), vec![vec![0, 1], vec![1, 1], vec![2, 1]]);
    assert_eq!(twice, world);
}

#[test]
fn blinker_in_a_larger_field() {
    let world = generate_world("00000\n00#00\n00#00\n00#00\n00000");
    let once = step_life(world);
    assert_eq!(encode_world(&once), "00000\n00000\n0###0\n00000\n00000\n");
}

#[test]
fn glider_advances_one_generation() {
    let text = "
0#00000000
00#0000000
###0000000
0000000000
0000000000
0000000000
0000000000
0000000000
0000000000
0000000000";
    let next = step_life(generate_world(text));
    let expected = "0000000000
#0#0000000
0##0000000
0#00000000
0000000000
0000000000
0000000000
0000000000
0000000000
0000000000
";
    assert_eq!(encode_world(&next), expected);
}

#[test]
fn glider_three_rows() {
    let next = step_life(generate_world("0#00000000\n00#0000000\n###0000000\n"));
    assert_eq!(encode_world(&next), "0000000000\n#0#0000000\n0##0000000\n");
}
