use wfc::grid::{Grid, Size};
use wfc::orientation::{all_orientations, Orientation};
use wfc::pattern::GlobalStats;
use rand::rngs::StdRng;
use rand::SeedableRng;
use wfc::runner::{Forbid, ForbidEntry, RetryPolicy, Runner, Step};
use wfc::wrap::{Wrap, DIR_DOWN, DIR_LEFT, DIR_RIGHT, DIR_UP};
use wfc::WfcError;

const SAMPLE_10X10: [[u64; 10]; 10] = [
    [0, 1, 1, 2, 0, 1, 1, 2, 2, 1],
    [1, 2, 2, 2, 1, 3, 1, 1, 1, 1],
    [0, 1, 2, 2, 2, 1, 3, 1, 1, 1],
    [0, 1, 1, 2, 2, 2, 1, 3, 1, 1],
    [0, 0, 1, 1, 0, 1, 1, 0, 0, 1],
    [0, 1, 1, 1, 0, 1, 1, 0, 0, 1],
    [0, 1, 1, 2, 0, 1, 1, 2, 2, 1],
    [2, 0, 1, 1, 2, 0, 1, 1, 2, 1],
    [1, 1, 1, 1, 2, 2, 2, 1, 1, 1],
    [2, 2, 2, 2, 1, 2, 2, 2, 2, 1],
];

fn expect_err<T>(r: Result<T, WfcError>) -> WfcError {
    match r {
        Err(e) => e,
        Ok(_) => panic!("expected an error"),
    }
}

fn sample_grid() -> Grid<u64> {
    let mut cells: Vec<u64> = Vec::new();
    for row in SAMPLE_10X10.iter() {
        for v in row.iter() {
            cells.push(*v);
        }
    }
    Grid::from_vec(10, 10, cells)
}

fn identity_only() -> Vec<Orientation> {
    vec![Orientation::Original]
}

fn stats_10x10() -> GlobalStats {
    GlobalStats::from_sample(&sample_grid(), 3, &identity_only()).unwrap()
}

#[test]
fn wrap_nowrap_has_no_neighbor_past_edges() {
    let size = Size::new(4, 3);
    assert_eq!(Wrap::NoWrap.neighbor(size, 0, 0, DIR_LEFT), None);
    assert_eq!(Wrap::NoWrap.neighbor(size, 0, 0, DIR_UP), None);
    assert_eq!(Wrap::NoWrap.neighbor(size, 3, 2, DIR_RIGHT), None);
    assert_eq!(Wrap::NoWrap.neighbor(size, 3, 2, DIR_DOWN), None);
    assert_eq!(Wrap::NoWrap.neighbor(size, 1, 1, DIR_LEFT), Some((0, 1)));
    assert_eq!(Wrap::NoWrap.neighbor(size, 1, 1, DIR_DOWN), Some((1, 2)));
}

#[test]
fn wrap_xy_wraps_both_axes() {
    let size = Size::new(4, 3);
    assert_eq!(Wrap::WrapXY.neighbor(size, 0, 0, DIR_LEFT), Some((3, 0)));
    assert_eq!(Wrap::WrapXY.neighbor(size, 3, 0, DIR_RIGHT), Some((0, 0)));
    assert_eq!(Wrap::WrapXY.neighbor(size, 0, 0, DIR_UP), Some((0, 2)));
    assert_eq!(Wrap::WrapXY.neighbor(size, 0, 2, DIR_DOWN), Some((0, 0)));
}

#[test]
fn wrap_single_axis_policies() {
    let size = Size::new(4, 3);
    assert_eq!(Wrap::WrapX.neighbor(size, 0, 0, DIR_LEFT), Some((3, 0)));
    assert_eq!(Wrap::WrapX.neighbor(size, 0, 0, DIR_UP), None);
    assert_eq!(Wrap::WrapY.neighbor(size, 0, 0, DIR_UP), Some((0, 2)));
    assert_eq!(Wrap::WrapY.neighbor(size, 0, 0, DIR_LEFT), None);
}

#[test]
fn orientation_offsets_rotate_a_window() {
    // Clockwise 90: window offset (0, 0) reads source offset (n-1, 0).
    assert_eq!(Orientation::Clockwise90.src_offset(3, 0, 0), (2, 0));
    assert_eq!(Orientation::Clockwise180.src_offset(3, 0, 0), (2, 2));
    assert_eq!(Orientation::Original.src_offset(3, 1, 2), (1, 2));
    assert_eq!(Orientation::Flipped.src_offset(3, 0, 1), (2, 1));
    assert_eq!(all_orientations().len(), 8);
}

#[test]
fn extraction_deduplicates_checkerboard() {
    // A 2x2 checkerboard with edge length 1 has exactly two patterns,
    // each seen twice.
    let g = Grid::from_vec(2, 2, vec![0u64, 1, 1, 0]);
    let stats = GlobalStats::from_sample(&g, 1, &identity_only()).unwrap();
    assert_eq!(stats.num_patterns(), 2);
    assert_eq!(stats.total_weight(), 4);
    assert_eq!(stats.weight(0) + stats.weight(1), 4);
    assert_eq!(stats.weight(0), 2);
    assert_eq!(stats.weight(1), 2);
    let mut tops = vec![stats.top_left_value(0), stats.top_left_value(1)];
    tops.sort();
    assert_eq!(tops, vec![0, 1]);
    // Width-zero overlap: every pair is compatible in every direction.
    for d in 0..4u32 {
        for p in 0..2usize {
            for q in 0..2usize {
                assert!(stats.compatible(d, p, q));
            }
        }
    }
}

#[test]
fn extraction_rejects_bad_pattern_size() {
    let g = Grid::from_vec(2, 2, vec![0u64, 1, 1, 0]);
    assert_eq!(
        expect_err(GlobalStats::from_sample(&g, 0, &identity_only())),
        WfcError::InvalidPatternSize
    );
    assert_eq!(
        expect_err(GlobalStats::from_sample(&g, 3, &identity_only())),
        WfcError::InvalidPatternSize
    );
}

#[test]
fn extraction_rejects_empty_orientation_set() {
    let g = Grid::from_vec(2, 2, vec![0u64, 1, 1, 0]);
    let none: Vec<Orientation> = Vec::new();
    assert_eq!(
        expect_err(GlobalStats::from_sample(&g, 1, &none)),
        WfcError::InvalidConfiguration
    );
}

#[test]
fn weight_conservation_on_the_sample() {
    // One orientation over a 10x10 toroidal sample yields exactly 100
    // windows; dedup only merges equal content, so the weights sum to
    // 100 and the distinct count cannot exceed it.
    let stats = stats_10x10();
    assert_eq!(stats.total_weight(), 100);
    assert!(stats.num_patterns() <= 100);
    let mut sum = 0u64;
    for p in 0..stats.num_patterns() {
        let w = stats.weight(p);
        assert!(w >= 1);
        sum += w as u64;
    }
    assert_eq!(sum, 100);
}

#[test]
fn weight_conservation_with_all_orientations() {
    let stats = GlobalStats::from_sample(&sample_grid(), 3, &all_orientations()).unwrap();
    assert_eq!(stats.total_weight(), 800);
    assert!(stats.num_patterns() <= 800);
}

#[test]
fn concrete_scenario_generates_a_fresh_grid() {
    // 10x10 sample over 4 symbols, edge length 3, identity orientation,
    // toroidal output, fixed seed: a 10x10 output whose values all come
    // from the sample alphabet and which is not the sample itself.
    let stats = stats_10x10();
    let mut runner =
        Runner::new(Size::new(10, 10), &stats, Wrap::WrapXY, Forbid::Nothing).unwrap();
    let mut rng = StdRng::seed_from_u64(21371);
    runner
        .collapse_retrying(&stats, RetryPolicy::NumTimes(100), &mut rng)
        .unwrap();
    let out = runner.values(&stats);
    assert_eq!(out.size_of(), Size::new(10, 10));
    let mut differs = false;
    for y in 0..10u32 {
        for x in 0..10u32 {
            let v = out.at(x, y);
            assert!(v <= 3);
            if v != SAMPLE_10X10[y as usize][x as usize] {
                differs = true;
            }
        }
    }
    assert!(differs);
}

#[test]
fn collapse_is_deterministic_for_a_fixed_seed() {
    let stats = stats_10x10();
    let mut first: Vec<u64> = Vec::new();
    let mut second: Vec<u64> = Vec::new();
    for out in [&mut first, &mut second] {
        let mut runner =
            Runner::new(Size::new(10, 10), &stats, Wrap::WrapXY, Forbid::Nothing).unwrap();
        let mut rng = StdRng::seed_from_u64(424242);
        runner
            .collapse_retrying(&stats, RetryPolicy::NumTimes(100), &mut rng)
            .unwrap();
        let grid = runner.values(&stats);
        for y in 0..10u32 {
            for x in 0..10u32 {
                out.push(grid.at(x, y));
            }
        }
    }
    assert_eq!(first, second);
}

#[test]
fn completed_wave_is_locally_consistent() {
    // Every adjacent pair of chosen patterns appears in the
    // compatibility table for its direction.
    let stats = stats_10x10();
    let size = Size::new(10, 10);
    let mut runner = Runner::new(size, &stats, Wrap::WrapXY, Forbid::Nothing).unwrap();
    let mut rng = StdRng::seed_from_u64(7);
    runner
        .collapse_retrying(&stats, RetryPolicy::NumTimes(100), &mut rng)
        .unwrap();
    let wave = runner.wave_ref();
    for y in 0..10u32 {
        for x in 0..10u32 {
            let p = wave.cell_at(x, y).the_pattern(&stats);
            for d in 0..4u32 {
                if let Some((nx, ny)) = Wrap::WrapXY.neighbor(size, x, y, d) {
                    let q = wave.cell_at(nx, ny).the_pattern(&stats);
                    assert!(stats.compatible(d, p, q));
                }
            }
        }
    }
}

#[test]
fn contradiction_halts_further_mutation() {
    // Forbidding every pattern at one coordinate contradicts during the
    // initial pass; afterwards steps keep failing and the wave of the
    // attempt is left alone.
    let stats = stats_10x10();
    let mut entries: Vec<ForbidEntry> = Vec::new();
    for p in 0..stats.num_patterns() {
        entries.push(ForbidEntry { x: 0, y: 0, pattern: p as u32 });
    }
    let mut runner = Runner::new(
        Size::new(10, 10),
        &stats,
        Wrap::WrapXY,
        Forbid::Eliminate(entries),
    )
    .unwrap();
    assert!(runner.is_contradicted());
    let mut rng = StdRng::seed_from_u64(1);
    assert_eq!(
        expect_err(runner.step(&stats, &mut rng)),
        WfcError::Contradiction
    );
    assert_eq!(
        expect_err(runner.step(&stats, &mut rng)),
        WfcError::Contradiction
    );
}

#[test]
fn retry_bound_is_respected() {
    // With a hook that contradicts every attempt, NumTimes(3) makes
    // exactly four attempts and reports exhaustion.
    let stats = stats_10x10();
    let mut entries: Vec<ForbidEntry> = Vec::new();
    for p in 0..stats.num_patterns() {
        entries.push(ForbidEntry { x: 2, y: 5, pattern: p as u32 });
    }
    let mut runner = Runner::new(
        Size::new(10, 10),
        &stats,
        Wrap::WrapXY,
        Forbid::Eliminate(entries),
    )
    .unwrap();
    let mut rng = StdRng::seed_from_u64(5);
    assert_eq!(
        expect_err(runner.collapse_retrying(&stats, RetryPolicy::NumTimes(3), &mut rng)),
        WfcError::RetryExhausted
    );
    assert_eq!(runner.attempts(), 4);
}

#[test]
fn runner_rejects_bad_configurations() {
    let stats = stats_10x10();
    assert_eq!(
        expect_err(Runner::new(Size::new(0, 10), &stats, Wrap::NoWrap, Forbid::Nothing)),
        WfcError::InvalidConfiguration
    );
    assert_eq!(
        expect_err(Runner::new(Size::new(10, 0), &stats, Wrap::NoWrap, Forbid::Nothing)),
        WfcError::InvalidConfiguration
    );
    let bad = vec![ForbidEntry { x: 10, y: 0, pattern: 0 }];
    assert_eq!(
        expect_err(Runner::new(Size::new(10, 10), &stats, Wrap::NoWrap, Forbid::Eliminate(bad))),
        WfcError::InvalidConfiguration
    );
}

#[test]
fn stepping_reports_incomplete_then_complete() {
    let stats = stats_10x10();
    let mut runner =
        Runner::new(Size::new(6, 6), &stats, Wrap::WrapXY, Forbid::Nothing).unwrap();
    let mut rng = StdRng::seed_from_u64(99);
    let first = runner.step(&stats, &mut rng);
    match first {
        Ok(Step::Incomplete) => {
            let mut steps = 0;
            loop {
                match runner.step(&stats, &mut rng) {
                    Ok(Step::Complete) => break,
                    Ok(Step::Incomplete) => {
                        steps += 1;
                        assert!(steps <= 36);
                    }
                    Err(e) => {
                        assert_eq!(e, WfcError::Contradiction);
                        break;
                    }
                }
            }
        }
        Ok(Step::Complete) => {}
        Err(e) => assert_eq!(e, WfcError::Contradiction),
    }
}

#[test]
fn scratch_memory_reuse_matches_fresh_runs() {
    let stats = stats_10x10();
    let size = Size::new(10, 10);
    let mut fresh =
        Runner::new(size, &stats, Wrap::WrapXY, Forbid::Nothing).unwrap();
    let mut rng1 = StdRng::seed_from_u64(424242);
    let ok1 = fresh
        .collapse_retrying(&stats, RetryPolicy::NumTimes(100), &mut rng1)
        .unwrap();
    let out1 = fresh.values(&stats);
    let (_wave, scratch) = fresh.into_parts();
    let mut reused =
        Runner::new_with(size, &stats, Wrap::WrapXY, Forbid::Nothing, Some(scratch)).unwrap();
    let mut rng2 = StdRng::seed_from_u64(424242);
    let ok2 = reused
        .collapse_retrying(&stats, RetryPolicy::NumTimes(100), &mut rng2)
        .unwrap();
    let out2 = reused.values(&stats);
    assert_eq!(ok1, ok2);
    for y in 0..10u32 {
        for x in 0..10u32 {
            assert_eq!(out1.at(x, y), out2.at(x, y));
        }
    }
}

#[test]
fn forbid_eliminates_the_named_pattern() {
    // Pin down one coordinate by forbidding a pattern there: after a
    // successful collapse that pattern is not the one chosen.
    let stats = stats_10x10();
    let size = Size::new(10, 10);
    let banned: u32 = 0;
    let entries = vec![ForbidEntry { x: 4, y: 4, pattern: banned }];
    let mut runner =
        Runner::new(size, &stats, Wrap::WrapXY, Forbid::Eliminate(entries)).unwrap();
    let mut rng = StdRng::seed_from_u64(31337);
    runner
        .collapse_retrying(&stats, RetryPolicy::NumTimes(100), &mut rng)
        .unwrap();
    let chosen = runner.wave_ref().cell_at(4, 4).the_pattern(&stats);
    assert_ne!(chosen as u32, banned);
}

#[test]
fn entropy_matches_the_weight_formula() {
    // Two patterns of weight 2: total weight 4, so the entropy is
    // log2(4) - (2*log2(2) + 2*log2(2)) / 4 = 1.0 in fixed-point steps.
    let g = Grid::from_vec(2, 2, vec![0u64, 1, 1, 0]);
    let stats = GlobalStats::from_sample(&g, 1, &identity_only()).unwrap();
    let wave = wfc::wave::Wave::new(Size::new(1, 1), &stats);
    assert_eq!(wave.cell_at(0, 0).entropy(&stats), 65536);
}

#[test]
fn contradicted_runner_leaves_the_wave_untouched() {
    let stats = stats_10x10();
    let mut entries: Vec<ForbidEntry> = Vec::new();
    for p in 0..stats.num_patterns() {
        entries.push(ForbidEntry { x: 9, y: 9, pattern: p as u32 });
    }
    let mut runner = Runner::new(
        Size::new(10, 10),
        &stats,
        Wrap::WrapXY,
        Forbid::Eliminate(entries),
    )
    .unwrap();
    let mut rng = StdRng::seed_from_u64(3);
    let _ = runner.step(&stats, &mut rng);
    let before: Vec<u32> = (0..10u32)
        .map(|x| runner.wave_ref().cell_at(x, 0).count())
        .collect();
    let _ = runner.step(&stats, &mut rng);
    let after: Vec<u32> = (0..10u32)
        .map(|x| runner.wave_ref().cell_at(x, 0).count())
        .collect();
    assert_eq!(before, after);
}

#[test]
fn nowrap_output_collapses_too() {
    let stats = stats_10x10();
    let mut runner =
        Runner::new(Size::new(8, 8), &stats, Wrap::NoWrap, Forbid::Nothing).unwrap();
    let mut rng = StdRng::seed_from_u64(11);
    runner
        .collapse_retrying(&stats, RetryPolicy::NumTimes(200), &mut rng)
        .unwrap();
    let out = runner.values(&stats);
    for y in 0..8u32 {
        for x in 0..8u32 {
            assert!(out.at(x, y) <= 3);
        }
    }
}

#[test]
fn weighted_selection_walks_cumulative_intervals() {
    // Two patterns of weight 2: targets 0 and 1 fall in the first
    // pattern's interval, targets 2 and 3 in the second's.
    let g = Grid::from_vec(2, 2, vec![0u64, 1, 1, 0]);
    let stats = GlobalStats::from_sample(&g, 1, &identity_only()).unwrap();
    let wave = wfc::wave::Wave::new(Size::new(1, 1), &stats);
    let cell = wave.cell_at(0, 0);
    assert_eq!(wfc::runner::pattern_at_target(cell, &stats, 0), 0);
    assert_eq!(wfc::runner::pattern_at_target(cell, &stats, 1), 0);
    assert_eq!(wfc::runner::pattern_at_target(cell, &stats, 2), 1);
    assert_eq!(wfc::runner::pattern_at_target(cell, &stats, 3), 1);
}
