use sandpile::output::{raw_data_to_rgba, shade_of, Shade};
use sandpile::sandpile::{ErrorKind, Sandpile, FULL_PROBABILITY, LEAST_PROBABILITY};

fn total(s: &Sandpile) -> usize {
    s.cells.data().iter().sum()
}

fn step_until_stable(s: &mut Sandpile, cap: usize) -> usize {
    let mut calls = 0;
    while !s.is_completely_toppled {
        assert!(calls < cap);
        s.topple_sandpile();
        calls += 1;
    }
    calls
}

#[test]
fn probability() {
    let mut s = Sandpile::new(0, 0);

    // a new pile topples with probability one
    assert_eq!(s.probability_to_topple, FULL_PROBABILITY);

    // minus one
    let res = s.set_probailitiy(-16_777_216);
    assert_eq!(res, Err(ErrorKind::ValueValidation));
    assert_eq!(s.probability_to_topple, LEAST_PROBABILITY);

    let res = s.set_probailitiy(0);
    assert_eq!(res, Err(ErrorKind::ValueValidation));
    assert_eq!(s.probability_to_topple, LEAST_PROBABILITY);

    // two
    let res = s.set_probailitiy(33_554_432);
    assert_eq!(res, Err(ErrorKind::ValueValidation));
    assert_eq!(s.probability_to_topple, FULL_PROBABILITY);

    // one half
    let res = s.set_probailitiy(8_388_608);
    assert_eq!(res, Ok(()));
    assert_eq!(s.probability_to_topple, 8_388_608);
}

#[test]
fn probability_bounds_in_units() {
    assert_eq!(FULL_PROBABILITY, 1 << 24);
    // the least number of units that is no less than a thousandth
    assert!(f64::from(LEAST_PROBABILITY) / f64::from(FULL_PROBABILITY) >= 0.001);
    assert!(f64::from(LEAST_PROBABILITY - 1) / f64::from(FULL_PROBABILITY) < 0.001);

    let mut s = Sandpile::new(3, 3);
    // one and a half
    assert_eq!(s.set_probailitiy(25_165_824), Err(ErrorKind::ValueValidation));
    assert_eq!(s.probability(), FULL_PROBABILITY);
    assert_eq!(s.set_probailitiy(1), Ok(()));
    assert_eq!(s.probability(), 1);
    assert_eq!(s.set_probailitiy(16_777_216), Ok(()));
    assert_eq!(s.probability(), FULL_PROBABILITY);
    assert_eq!(s.set_probailitiy(16_777_217), Err(ErrorKind::ValueValidation));
    assert_eq!(s.probability(), FULL_PROBABILITY);
    assert_eq!(s.set_probailitiy(i64::MIN), Err(ErrorKind::ValueValidation));
    assert_eq!(s.probability(), LEAST_PROBABILITY);
}

#[test]
fn new_pile_is_empty_with_a_border() {
    let s = Sandpile::new(3, 2);
    assert_eq!(s.x, 5);
    assert_eq!(s.y, 4);
    assert_eq!(s.cells.data().len(), 20);
    assert!(s.cells.data().iter().all(|&v| v == 0));
    assert!(!s.is_completely_toppled);
    assert_eq!(s.num_steps, 0);
    assert_eq!(s.num_topples, 0);
}

#[test]
fn set_value_at_counts_from_the_first_inner_cell() {
    let mut s = Sandpile::new(3, 2);
    s.set_value_at(7, (0, 0));
    s.set_value_at(9, (2, 1));
    let mut expected = vec![0usize; 20];
    expected[6] = 7;
    expected[13] = 9;
    assert_eq!(s.cells.data(), expected.as_slice());
    assert_eq!(s.cells[(1, 1)], 7);
    assert_eq!(s.cells[(3, 2)], 9);
    assert!(!s.is_completely_toppled);
}

#[test]
fn reset_empties_the_grid_and_keeps_the_counters() {
    let mut s = Sandpile::new(3, 3);
    s.set_value_at(17, (1, 1));
    s.topple_sandpile();
    s.topple_sandpile();
    let steps = s.num_steps;
    let topples = s.num_topples;
    assert!(topples > 0);
    s.is_completely_toppled = true;
    s.reset();
    assert!(s.cells.data().iter().all(|&v| v == 0));
    assert!(!s.is_completely_toppled);
    assert_eq!(s.num_steps, steps);
    assert_eq!(s.num_topples, topples);
    assert_eq!((s.x, s.y), (5, 5));
}

#[test]
fn hundred_grains_on_five_by_five() {
    let mut s = Sandpile::new(5, 5);
    s.set_value_at(100, (2, 2));
    let calls = step_until_stable(&mut s, 1000);
    assert_eq!(calls, 10);
    let expected: [usize; 49] = [
        0, 0, 0, 0, 0, 0, 0, //
        0, 2, 3, 1, 3, 2, 0, //
        0, 3, 0, 3, 0, 3, 0, //
        0, 1, 3, 0, 3, 1, 0, //
        0, 3, 0, 3, 0, 3, 0, //
        0, 2, 3, 1, 3, 2, 0, //
        0, 0, 0, 0, 0, 0, 0,
    ];
    assert_eq!(s.cells.data(), &expected[..]);
    assert_eq!(s.num_steps, 250);
    assert_eq!(s.num_topples, 108);
    assert_eq!(total(&s), 48);
}

#[test]
fn three_grains_are_stable_at_once() {
    let mut s = Sandpile::new(3, 3);
    s.set_value_at(3, (1, 1));
    let before: Vec<usize> = s.cells.data().to_vec();
    s.topple_sandpile();
    assert!(s.is_completely_toppled);
    assert_eq!(s.cells.data(), before.as_slice());
    assert_eq!(s.cells[(2, 2)], 3);
    assert_eq!(s.num_steps, 9);
    assert_eq!(s.num_topples, 0);
}

#[test]
fn one_sweep_reads_what_it_wrote() {
    let mut s = Sandpile::new(3, 3);
    s.set_value_at(17, (1, 1));
    s.topple_sandpile();
    let expected: [usize; 25] = [
        0, 0, 0, 0, 0, //
        0, 0, 4, 1, 0, //
        0, 4, 3, 0, 0, //
        0, 1, 0, 2, 0, //
        0, 0, 0, 0, 0,
    ];
    assert_eq!(s.cells.data(), &expected[..]);
    assert!(!s.is_completely_toppled);
    assert_eq!(s.num_steps, 9);
    assert_eq!(s.num_topples, 3);
}

#[test]
fn a_sweep_never_writes_to_the_border() {
    let mut s = Sandpile::new(1, 1);
    s.set_value_at(4, (0, 0));
    s.topple_sandpile();
    assert!(s.cells.data().iter().all(|&v| v == 0));
    assert!(!s.is_completely_toppled);
    assert_eq!(s.num_topples, 1);
    s.topple_sandpile();
    assert!(s.is_completely_toppled);
}

#[test]
fn a_sweep_leaves_grains_on_the_border_alone() {
    let mut s = Sandpile::new(1, 1);
    s.cells[(0, 1)] = 9;
    s.cells[(1, 0)] = 2;
    s.set_value_at(8, (0, 0));
    s.topple_sandpile();
    let expected: [usize; 9] = [0, 2, 0, 9, 0, 0, 0, 0, 0];
    assert_eq!(s.cells.data(), &expected[..]);
    assert!(!s.is_completely_toppled);
}

#[test]
fn sweep_on_a_narrow_pile() {
    let mut s = Sandpile::new(2, 1);
    s.set_value_at(9, (0, 0));
    s.set_value_at(5, (1, 0));
    s.topple_sandpile();
    let expected: [usize; 12] = [0, 0, 0, 0, 0, 2, 3, 0, 0, 0, 0, 0];
    assert_eq!(s.cells.data(), &expected[..]);
    assert!(!s.is_completely_toppled);
    assert_eq!(s.num_steps, 2);
    assert_eq!(s.num_topples, 2);
}

#[test]
fn step_on_a_stable_pile_changes_nothing() {
    let mut s = Sandpile::new(5, 5);
    s.set_value_at(100, (2, 2));
    step_until_stable(&mut s, 1000);
    let before: Vec<usize> = s.cells.data().to_vec();
    let topples = s.num_topples;
    s.topple_sandpile();
    assert!(s.is_completely_toppled);
    assert_eq!(s.cells.data(), before.as_slice());
    assert_eq!(s.num_topples, topples);
}

#[test]
fn step_never_clears_the_flag() {
    let mut s = Sandpile::new(3, 3);
    s.topple_sandpile();
    assert!(s.is_completely_toppled);
    s.set_value_at(4, (1, 1));
    s.topple_sandpile();
    assert!(s.is_completely_toppled);
    assert_eq!(s.cells[(2, 2)], 0);
    assert_eq!(s.cells[(1, 2)], 1);
}

#[test]
fn sweeps_lose_what_the_border_swallows() {
    let mut s = Sandpile::new(5, 5);
    s.set_value_at(100, (2, 2));
    let mut before = total(&s);
    for _ in 0..12 {
        s.topple_sandpile();
        assert!(total(&s) <= before);
        before = total(&s);
    }
    assert_eq!(before, 48);
    for k in 0..7 {
        assert_eq!(s.cells[(0, k)], 0);
        assert_eq!(s.cells[(6, k)], 0);
        assert_eq!(s.cells[(k, 0)], 0);
        assert_eq!(s.cells[(k, 6)], 0);
    }
}

#[test]
fn a_sweep_far_from_the_border_keeps_every_grain() {
    let mut s = Sandpile::new(5, 5);
    s.set_value_at(12, (2, 2));
    s.topple_sandpile();
    assert_eq!(total(&s), 12);
    assert_eq!(s.cells[(3, 3)], 0);
    assert_eq!(s.cells[(2, 3)], 3);
    assert_eq!(s.cells[(3, 2)], 3);
    assert_eq!(s.cells[(4, 3)], 3);
    assert_eq!(s.cells[(3, 4)], 3);
}

#[test]
fn bulk_topple_equals_unit_topples() {
    let mut bulk = Sandpile::new(3, 3);
    bulk.set_value_at(12, (1, 1));
    bulk.topple_sandpile();

    let mut unit = Sandpile::new(3, 3);
    for _ in 0..3 {
        let rest = unit.cells[(2, 2)];
        unit.set_value_at(rest + 4, (1, 1));
        unit.topple_sandpile();
    }
    assert_eq!(bulk.cells.data(), unit.cells.data());
    assert_eq!(bulk.cells[(1, 2)], 3);
    assert_eq!(bulk.cells[(2, 1)], 3);
    assert_eq!(bulk.cells[(3, 2)], 3);
    assert_eq!(bulk.cells[(2, 3)], 3);
    assert_eq!(bulk.cells[(2, 2)], 0);
}

#[test]
fn relax_cell_by_the_two_branches() {
    let mut s = Sandpile::new(3, 3);
    s.set_value_at(7, (1, 1));
    assert!(s.relax_cell(2, 2));
    assert_eq!(s.cells[(2, 2)], 3);
    assert_eq!(s.cells[(1, 2)], 1);
    assert!(!s.relax_cell(2, 2));
    s.set_value_at(11, (1, 1));
    assert!(s.relax_cell(2, 2));
    assert_eq!(s.cells[(2, 2)], 3);
    assert_eq!(s.cells[(1, 2)], 3);
    assert_eq!(s.cells[(2, 1)], 3);
    assert_eq!(s.cells[(3, 2)], 3);
    assert_eq!(s.cells[(2, 3)], 3);
    assert_eq!(s.num_topples, 2);
    assert_eq!(s.num_steps, 0);
}

#[test]
fn bounded_cascade_from_one_seed() {
    let mut s = Sandpile::new(5, 5);
    s.topple(100, 3, 3);
    let expected: [usize; 49] = [
        0, 0, 0, 0, 0, 0, 0, //
        0, 2, 3, 1, 3, 2, 0, //
        0, 3, 0, 3, 0, 3, 0, //
        0, 1, 3, 0, 3, 1, 0, //
        0, 3, 0, 3, 0, 3, 0, //
        0, 2, 3, 1, 3, 2, 0, //
        0, 0, 0, 0, 0, 0, 0,
    ];
    assert_eq!(s.cells.data(), &expected[..]);
    assert!(s.is_completely_toppled);
    assert_eq!(s.num_steps, 513);
    assert_eq!(s.num_topples, 128);
    assert_eq!(total(&s), 48);
}

#[test]
fn bounded_cascade_agrees_with_sweeps_inside_the_border() {
    let mut swept = Sandpile::new(5, 5);
    swept.set_value_at(100, (2, 2));
    step_until_stable(&mut swept, 1000);
    let mut seeded = Sandpile::new(5, 5);
    seeded.topple(100, 3, 3);
    for x in 1..6 {
        for y in 1..6 {
            assert_eq!(swept.cells[(x, y)], seeded.cells[(x, y)]);
        }
    }
}

#[test]
fn grains_sent_to_the_border_are_lost() {
    let mut s = Sandpile::new(3, 3);
    s.topple(9, 0, 2);
    assert!(s.cells.data().iter().all(|&v| v == 0));
    assert!(!s.is_completely_toppled);
    assert_eq!(s.num_steps, 1);
    s.topple(9, 4, 4);
    s.topple(9, 77, 1);
    s.topple(9, usize::MAX, usize::MAX);
    assert!(s.cells.data().iter().all(|&v| v == 0));
    assert!(!s.is_completely_toppled);
    assert_eq!(s.num_steps, 4);
    assert_eq!(s.num_topples, 0);
}

#[test]
fn bounded_cascade_marks_the_pile_after_the_first_arrival() {
    let mut s = Sandpile::new(3, 3);
    s.topple(2, 1, 1);
    assert!(s.is_completely_toppled);
    assert_eq!(s.cells[(1, 1)], 2);
    assert_eq!(s.num_steps, 1);
    assert_eq!(s.num_topples, 0);
}

#[test]
fn torus_cascade_keeps_every_grain() {
    let mut s = Sandpile::new(5, 5);
    s.topple_torus(40, 3, 3);
    let expected: [usize; 49] = [
        0, 0, 0, 0, 0, 0, 0, //
        0, 0, 1, 3, 1, 0, 0, //
        0, 1, 2, 3, 2, 1, 0, //
        0, 3, 3, 0, 3, 3, 0, //
        0, 1, 2, 3, 2, 1, 0, //
        0, 0, 1, 3, 1, 0, 0, //
        0, 0, 0, 0, 0, 0, 0,
    ];
    assert_eq!(s.cells.data(), &expected[..]);
    assert!(s.is_completely_toppled);
    assert_eq!(s.num_steps, 61);
    assert_eq!(s.num_topples, 15);
    assert_eq!(total(&s), 40);
}

#[test]
fn torus_cascade_wraps_over_the_inner_cells() {
    let mut s = Sandpile::new(3, 3);
    s.topple_torus(4, 1, 1);
    // left of the first inner cell is the last, and so above it
    let expected: [usize; 25] = [
        0, 0, 0, 0, 0, //
        0, 0, 1, 1, 0, //
        0, 1, 0, 0, 0, //
        0, 1, 0, 0, 0, //
        0, 0, 0, 0, 0,
    ];
    assert_eq!(s.cells.data(), &expected[..]);
    assert_eq!(s.cells[(1, 1)], 0);
    assert_eq!(s.cells[(3, 1)], 1);
    assert_eq!(s.cells[(1, 3)], 1);
    assert_eq!(s.cells[(2, 1)], 1);
    assert_eq!(s.cells[(1, 2)], 1);
    assert_eq!(s.num_steps, 5);
    assert_eq!(s.num_topples, 1);

    let mut t = Sandpile::new(3, 3);
    t.topple_torus(4, 3, 3);
    assert_eq!(t.cells[(3, 3)], 0);
    assert_eq!(t.cells[(2, 3)], 1);
    assert_eq!(t.cells[(3, 2)], 1);
    assert_eq!(t.cells[(1, 3)], 1);
    assert_eq!(t.cells[(3, 1)], 1);
    assert_eq!(total(&t), 4);
}

#[test]
fn settle_torus_runs_until_the_pile_is_marked() {
    let mut s = Sandpile::new(5, 5);
    s.set_value_at(40, (2, 2));
    s.settle_torus(3, 3);
    assert!(s.is_completely_toppled);
    assert_eq!(total(&s), 40);
    assert!(s.cells.data().iter().all(|&v| v < 4));
    assert_eq!(s.cells[(3, 3)], 0);
    assert_eq!(s.cells[(3, 1)], 3);
    assert_eq!(s.num_steps, 61);
    assert_eq!(s.num_topples, 15);
    // marked already: nothing more is done
    s.set_value_at(9, (0, 0));
    s.settle_torus(1, 1);
    assert_eq!(s.cells[(1, 1)], 9);
    assert_eq!(s.num_steps, 61);

    let mut t = Sandpile::new(3, 3);
    t.num_topples = usize::MAX;
    t.set_value_at(9, (0, 0));
    t.settle_torus(1, 1);
    assert!(!t.is_completely_toppled);
    assert_eq!(t.cells[(1, 1)], 9);
}

#[test]
fn torus_cascade_without_new_grains() {
    let mut s = Sandpile::new(5, 5);
    s.set_value_at(7, (1, 2));
    s.topple_torus(0, 2, 3);
    assert_eq!(s.cells[(2, 3)], 3);
    assert_eq!(s.cells[(1, 3)], 1);
    assert_eq!(s.cells[(2, 2)], 1);
    assert_eq!(s.cells[(3, 3)], 1);
    assert_eq!(s.cells[(2, 4)], 1);
    assert_eq!(total(&s), 7);
    assert_eq!(s.num_steps, 5);
    assert_eq!(s.num_topples, 1);
    assert!(s.is_completely_toppled);
}

#[test]
fn a_counter_at_its_limit_halts_a_cascade() {
    let mut s = Sandpile::new(3, 3);
    s.num_steps = usize::MAX - 1;
    s.topple_torus(40, 2, 2);
    assert_eq!(s.num_steps, usize::MAX);
    assert_eq!(s.num_topples, 1);
    assert_eq!(s.cells[(2, 2)], 0);
    assert_eq!(total(&s), 0);
    assert!(!s.is_completely_toppled);

    let mut t = Sandpile::new(3, 3);
    t.num_topples = usize::MAX;
    t.topple(40, 2, 2);
    assert_eq!(t.num_steps, 0);
    assert!(t.cells.data().iter().all(|&v| v == 0));
    assert!(!t.is_completely_toppled);
}

#[test]
fn scatter_cell_moves_the_grains_that_pass() {
    let mut s = Sandpile::new(3, 3);
    assert_eq!(s.set_probailitiy(8_388_608), Ok(()));
    s.set_value_at(6, (1, 1));
    // as fractions: just under a half, a half, zero, nearly one
    s.scatter_cell(2, 2, [0x7fff_ffff, 0x8000_0000, 0, 0xffff_ffff]);
    assert_eq!(s.cells[(2, 2)], 4);
    assert_eq!(s.cells[(1, 2)], 1);
    assert_eq!(s.cells[(2, 1)], 0);
    assert_eq!(s.cells[(3, 2)], 1);
    assert_eq!(s.cells[(2, 3)], 0);
    s.scatter_cell(2, 2, [0xffff_ffff, 0x7fff_ff00, 0x8000_00ff, 0x7fff_ffff]);
    assert_eq!(s.cells[(2, 2)], 2);
    assert_eq!(s.cells[(1, 2)], 1);
    assert_eq!(s.cells[(2, 1)], 1);
    assert_eq!(s.cells[(3, 2)], 1);
    assert_eq!(s.cells[(2, 3)], 1);
    assert_eq!(s.num_steps, 0);
    assert_eq!(s.num_topples, 0);
}

#[test]
fn scatter_cell_with_the_least_probability() {
    let mut s = Sandpile::new(3, 3);
    assert_eq!(s.set_probailitiy(0), Err(ErrorKind::ValueValidation));
    s.set_value_at(4, (1, 1));
    // 16777 units pass, 16778 do not
    s.scatter_cell(2, 2, [16_777 << 8, 16_778 << 8, (16_777 << 8) + 255, u32::MAX]);
    assert_eq!(s.cells[(2, 2)], 2);
    assert_eq!(s.cells[(1, 2)], 1);
    assert_eq!(s.cells[(2, 1)], 0);
    assert_eq!(s.cells[(3, 2)], 1);
    assert_eq!(s.cells[(2, 3)], 0);
}

#[test]
fn random_sweeps_add_no_grain_and_come_to_rest() {
    let mut s = Sandpile::new(5, 5);
    assert_eq!(s.set_probailitiy(8_388_608), Ok(()));
    s.set_value_at(40, (2, 2));
    let mut calls = 0;
    let mut before = 40;
    while !s.is_completely_toppled {
        assert!(calls < 1_000_000);
        s.topple_sandpile();
        assert!(total(&s) <= before);
        before = total(&s);
        calls += 1;
    }
    assert!(calls > 1);
    for x in 1..6 {
        for y in 1..6 {
            assert!(s.cells[(x, y)] < 4);
        }
    }
    for k in 0..7 {
        assert_eq!(s.cells[(0, k)], 0);
        assert_eq!(s.cells[(6, k)], 0);
        assert_eq!(s.cells[(k, 0)], 0);
        assert_eq!(s.cells[(k, 6)], 0);
    }
    assert_eq!(s.num_steps, 0);
    assert_eq!(s.num_topples, 0);
}

#[test]
fn one_random_sweep_moves_grains_to_neighbours_only() {
    let mut s = Sandpile::new(3, 3);
    assert_eq!(s.set_probailitiy(8_388_608), Ok(()));
    s.set_value_at(4, (1, 1));
    s.topple_sandpile();
    assert!(!s.is_completely_toppled);
    let around =
        s.cells[(2, 2)] + s.cells[(1, 2)] + s.cells[(2, 1)] + s.cells[(3, 2)] + s.cells[(2, 3)];
    assert_eq!(around, 4);
    assert_eq!(total(&s), 4);
    assert!(s.cells[(1, 2)] <= 1 && s.cells[(2, 1)] <= 1);
    assert!(s.cells[(3, 2)] <= 1 && s.cells[(2, 3)] <= 1);
}

#[test]
fn scatter_cell_at_the_border_loses_the_grain() {
    let mut s = Sandpile::new(1, 1);
    assert_eq!(s.set_probailitiy(8_388_608), Ok(()));
    s.set_value_at(5, (0, 0));
    s.scatter_cell(1, 1, [0, u32::MAX, 0, u32::MAX]);
    assert_eq!(s.cells[(1, 1)], 3);
    assert_eq!(total(&s), 3);
    // with probability one every sample passes
    let mut t = Sandpile::new(1, 1);
    t.set_value_at(5, (0, 0));
    t.scatter_cell(1, 1, [0, u32::MAX, 0, u32::MAX]);
    assert_eq!(t.cells[(1, 1)], 1);
    assert_eq!(total(&t), 1);
}

#[test]
fn random_sweep_on_a_stable_pile_changes_nothing() {
    let mut s = Sandpile::new(3, 3);
    assert_eq!(s.set_probailitiy(1), Ok(()));
    s.set_value_at(3, (1, 1));
    s.set_value_at(2, (0, 2));
    let before: Vec<usize> = s.cells.data().to_vec();
    let mut rng = rand::thread_rng();
    assert!(!s.sweep_random(&mut rng));
    assert_eq!(s.cells.data(), before.as_slice());
    assert!(!s.is_completely_toppled);
    s.topple_sandpile();
    assert!(s.is_completely_toppled);
    assert_eq!(s.cells.data(), before.as_slice());
}

#[test]
fn random_sweep_sees_a_full_cell_even_if_nothing_moves() {
    let mut s = Sandpile::new(3, 3);
    assert_eq!(s.set_probailitiy(1), Ok(()));
    s.set_value_at(5, (1, 1));
    s.topple_sandpile();
    assert!(!s.is_completely_toppled);
    let total_after: usize = total(&s);
    assert_eq!(total_after, 5);
}

#[test]
fn pixels_of_each_count() {
    let mut out: Vec<u8> = vec![9];
    raw_data_to_rgba(&[0, 1, 2, 3, 4, 100], &mut out);
    assert_eq!(
        out,
        vec![
            9, //
            0, 0, 0, 255, //
            0, 0, 255, 255, //
            0, 255, 0, 255, //
            255, 0, 0, 255, //
            0, 0, 0, 0, //
            0, 0, 0, 0,
        ]
    );
    let mut none: Vec<u8> = Vec::new();
    raw_data_to_rgba(&[], &mut none);
    assert!(none.is_empty());
}

#[test]
fn pixels_of_a_pile() {
    let mut s = Sandpile::new(1, 1);
    s.set_value_at(2, (0, 0));
    let mut out: Vec<u8> = Vec::new();
    raw_data_to_rgba(s.cells.data(), &mut out);
    assert_eq!(out.len(), 36);
    assert_eq!(&out[16..20], &[0, 255, 0, 255]);
    assert_eq!(&out[0..4], &[0, 0, 0, 255]);
}

#[test]
fn shades_of_each_count() {
    assert_eq!(shade_of(0), Shade::Black);
    assert_eq!(shade_of(1), Shade::Blue);
    assert_eq!(shade_of(2), Shade::Green);
    assert_eq!(shade_of(3), Shade::Red);
    assert_eq!(shade_of(4), Shade::Purple);
    assert_eq!(shade_of(usize::MAX), Shade::Purple);
}

#[test]
fn cascades_leave_no_cell_to_topple() {
    let mut s = Sandpile::new(5, 5);
    s.topple(1000, 3, 3);
    for x in 1..6 {
        for y in 1..6 {
            assert!(s.cells[(x, y)] < 4);
        }
    }
    for k in 0..7 {
        assert_eq!(s.cells[(0, k)], 0);
        assert_eq!(s.cells[(6, k)], 0);
        assert_eq!(s.cells[(k, 0)], 0);
        assert_eq!(s.cells[(k, 6)], 0);
    }
    assert!(total(&s) <= 1000);

    let mut t = Sandpile::new(5, 5);
    t.set_value_at(40, (2, 2));
    t.topple_torus(0, 3, 3);
    assert!(t.cells.data().iter().all(|&v| v < 4));
    assert_eq!(total(&t), 40);
    assert!(t.is_completely_toppled);
    for k in 0..7 {
        assert_eq!(t.cells[(0, k)], 0);
        assert_eq!(t.cells[(6, k)], 0);
        assert_eq!(t.cells[(k, 0)], 0);
        assert_eq!(t.cells[(k, 6)], 0);
    }
}

#[test]
fn a_second_seed_lands_on_the_first() {
    let mut s = Sandpile::new(3, 3);
    s.topple(3, 2, 2);
    s.topple(3, 2, 2);
    // six grains: four leave, one to each neighbour
    assert_eq!(s.cells[(2, 2)], 2);
    assert_eq!(s.cells[(1, 2)], 1);
    assert_eq!(s.cells[(2, 1)], 1);
    assert_eq!(s.cells[(3, 2)], 1);
    assert_eq!(s.cells[(2, 3)], 1);
    assert_eq!(s.num_steps, 6);
    assert_eq!(s.num_topples, 1);
}

#[test]
fn settle_sweeps_until_the_pile_is_stable() {
    let mut s = Sandpile::new(5, 5);
    s.set_value_at(100, (2, 2));
    assert_eq!(s.settle(), 10);
    assert!(s.is_completely_toppled);
    let expected: [usize; 49] = [
        0, 0, 0, 0, 0, 0, 0, //
        0, 2, 3, 1, 3, 2, 0, //
        0, 3, 0, 3, 0, 3, 0, //
        0, 1, 3, 0, 3, 1, 0, //
        0, 3, 0, 3, 0, 3, 0, //
        0, 2, 3, 1, 3, 2, 0, //
        0, 0, 0, 0, 0, 0, 0,
    ];
    assert_eq!(s.cells.data(), &expected[..]);
    assert_eq!(s.num_steps, 250);
    assert_eq!(s.num_topples, 108);
    assert_eq!(s.settle(), 0);
    assert_eq!(s.num_steps, 250);

    let mut t = Sandpile::new(3, 3);
    t.set_value_at(3, (1, 1));
    assert_eq!(t.settle(), 1);
    assert!(t.is_completely_toppled);

    let mut u = Sandpile::new(3, 3);
    u.set_value_at(8, (1, 1));
    u.num_steps = usize::MAX - 8;
    assert_eq!(u.settle(), 0);
    assert!(!u.is_completely_toppled);
    assert_eq!(u.cells[(2, 2)], 8);
}

#[test]
fn grains_sent_outside_need_no_room() {
    let mut s = Sandpile::new(3, 3);
    s.set_value_at(3, (1, 1));
    s.topple(usize::MAX, 0, 0);
    s.topple(usize::MAX, 9, 9);
    assert_eq!(s.cells[(2, 2)], 3);
    assert_eq!(total(&s), 3);
    assert_eq!(s.num_steps, 2);
    assert!(!s.is_completely_toppled);
}

#[test]
fn settle_counts_every_sweep_it_makes() {
    let mut s = Sandpile::new(3, 3);
    s.set_value_at(17, (1, 1));
    s.num_steps = 5;
    s.num_topples = 7;
    let calls = s.settle();
    assert!(calls >= 2);
    assert!(s.is_completely_toppled);
    assert_eq!(s.num_steps, 5 + calls * 9);
    assert!(s.num_topples > 7);
    for x in 1..4 {
        for y in 1..4 {
            assert!(s.cells[(x, y)] < 4);
        }
    }

    // room for one sweep and no more
    let mut t = Sandpile::new(3, 3);
    t.set_value_at(17, (1, 1));
    t.num_steps = usize::MAX - 9;
    assert_eq!(t.settle(), 1);
    assert_eq!(t.num_steps, usize::MAX);
    assert_eq!(t.num_topples, 3);
    assert!(!t.is_completely_toppled);
    assert_eq!(t.cells[(2, 2)], 3);
    assert_eq!(t.cells[(1, 2)], 4);
}

#[test]
fn settle_torus_leaves_a_pile_without_room_as_it_is() {
    let mut s = Sandpile::new(3, 3);
    s.set_value_at(9, (1, 1));
    s.num_steps = usize::MAX;
    s.settle_torus(2, 2);
    assert_eq!(s.cells[(2, 2)], 9);
    assert_eq!(s.num_steps, usize::MAX);
    assert_eq!(s.num_topples, 0);
    assert!(!s.is_completely_toppled);

    let mut t = Sandpile::new(3, 3);
    t.set_value_at(9, (1, 1));
    t.settle_torus(2, 2);
    assert!(t.is_completely_toppled);
    assert_eq!(t.cells[(2, 2)], 1);
    assert_eq!(t.cells[(1, 2)], 2);
    assert_eq!(t.cells[(2, 1)], 2);
    assert_eq!(t.cells[(3, 2)], 2);
    assert_eq!(t.cells[(2, 3)], 2);
    assert_eq!(t.num_steps, 5);
    assert_eq!(t.num_topples, 1);
}
