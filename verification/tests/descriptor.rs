use image_similarity::error::EngineError;
use image_similarity::features::{
    bin_width, count_in_cell, extent, extract_features_from_points, Extent, GridEdges, Moments,
    Point, FEATURE_LENGTH, GRID_SIZE,
};
use image_similarity::ieee::{Double, Single};

fn single(v: f32) -> Single {
    Single { bits: v.to_bits() }
}

fn double(v: f64) -> Double {
    Double { bits: v.to_bits() }
}

fn to_points(raw: &[(f32, f32, f32)]) -> Vec<Point> {
    raw.iter().map(|&(x, y, value)| Point { x: single(x), y: single(y), value: single(value) }).collect()
}

fn mean(column: &[f32]) -> f64 {
    column.iter().sum::<f32>() as f64 / column.len() as f64
}

fn deviation(column: &[f32], mean: f64) -> f64 {
    let variance =
        column.iter().map(|v| (*v as f64 - mean).powi(2)).sum::<f64>() / column.len() as f64;
    variance.sqrt()
}

fn moments_of(raw: &[(f32, f32, f32)]) -> Moments {
    let xs: Vec<f32> = raw.iter().map(|p| p.0).collect();
    let ys: Vec<f32> = raw.iter().map(|p| p.1).collect();
    let values: Vec<f32> = raw.iter().map(|p| p.2).collect();
    let (mx, my, mv) = (mean(&xs), mean(&ys), mean(&values));
    Moments {
        mean_x: double(mx),
        mean_y: double(my),
        mean_value: double(mv),
        deviation_x: double(deviation(&xs, mx)),
        deviation_y: double(deviation(&ys, my)),
        deviation_value: double(deviation(&values, mv)),
    }
}

fn edges(min: Single, max: Single) -> [Single; 11] {
    let (low, high) = (f32::from_bits(min.bits), f32::from_bits(max.bits));
    let step = f32::from_bits(bin_width(min, max, single((high - low) / 10.0)).bits);
    let mut out = [single(0.0); 11];
    for (i, edge) in out.iter_mut().enumerate() {
        *edge = single(low + i as f32 * step);
    }
    out
}

fn grid_of(found: &Extent) -> GridEdges {
    GridEdges { x: edges(found.x_min, found.x_max), y: edges(found.y_min, found.y_max) }
}

fn describe(raw: &[(f32, f32, f32)]) -> Result<Vec<f64>, EngineError> {
    let points = to_points(raw);
    let found = extent(&points)?;
    let descriptor = extract_features_from_points(&points, &moments_of(raw), &grid_of(&found))?;
    Ok(descriptor.iter().map(|d| f64::from_bits(d.bits)).collect())
}

fn least(column: &[f32]) -> f32 {
    *column.iter().min_by(|a, b| a.partial_cmp(b).unwrap()).unwrap()
}

fn greatest(column: &[f32]) -> f32 {
    *column.iter().max_by(|a, b| a.partial_cmp(b).unwrap()).unwrap()
}

/// The descriptor written out in floating point from start to end.
fn by_hand(raw: &[(f32, f32, f32)]) -> Vec<f64> {
    let xs: Vec<f32> = raw.iter().map(|p| p.0).collect();
    let ys: Vec<f32> = raw.iter().map(|p| p.1).collect();
    let values: Vec<f32> = raw.iter().map(|p| p.2).collect();
    let mut out = vec![mean(&xs), mean(&ys), mean(&values)];
    out.push(deviation(&xs, out[0]));
    out.push(deviation(&ys, out[1]));
    out.push(deviation(&values, out[2]));
    for column in [&xs, &ys, &values] {
        out.push(least(column) as f64);
        out.push(greatest(column) as f64);
    }
    out.push(raw.len() as f64);
    let (x_min, x_max, y_min, y_max) = (least(&xs), greatest(&xs), least(&ys), greatest(&ys));
    let x_step = if x_max > x_min { (x_max - x_min) / 10.0 } else { 1.0 };
    let y_step = if y_max > y_min { (y_max - y_min) / 10.0 } else { 1.0 };
    for i in 0..10 {
        for j in 0..10 {
            let x_start = x_min + i as f32 * x_step;
            let x_end = x_min + (i + 1) as f32 * x_step;
            let y_start = y_min + j as f32 * y_step;
            let y_end = y_min + (j + 1) as f32 * y_step;
            let count = raw
                .iter()
                .filter(|(x, y, _)| *x >= x_start && *x < x_end && *y >= y_start && *y < y_end)
                .count();
            out.push(count as f64);
        }
    }
    out
}

fn scattered(n: usize) -> Vec<(f32, f32, f32)> {
    let mut state: u32 = 0x2545_f491;
    let mut out = Vec::new();
    for _ in 0..n {
        let mut next = || {
            state ^= state << 13;
            state ^= state >> 17;
            state ^= state << 5;
            (state % 20_001) as f32 / 100.0 - 100.0
        };
        out.push((next(), next(), next()));
    }
    out
}

fn bits(v: &[f64]) -> Vec<u64> {
    v.iter().map(|x| x.to_bits()).collect()
}

#[test]
fn extract_gives_113_entries_with_the_count_at_index_12() {
    for n in [1usize, 2, 3, 10, 57, 200] {
        let descriptor = describe(&scattered(n)).unwrap();
        assert_eq!(descriptor.len(), 113);
        assert_eq!(descriptor.len(), FEATURE_LENGTH);
        assert_eq!(descriptor[12], n as f64);
    }
}

#[test]
fn extract_on_no_points_fails_with_empty_input() {
    assert_eq!(describe(&[]), Err(EngineError::EmptyInput));
    assert_eq!(extent(&Vec::new()), Err(EngineError::EmptyInput));
    let zero = double(0.0);
    let moments = Moments {
        mean_x: zero,
        mean_y: zero,
        mean_value: zero,
        deviation_x: zero,
        deviation_y: zero,
        deviation_value: zero,
    };
    let grid = GridEdges { x: [single(0.0); 11], y: [single(0.0); 11] };
    assert_eq!(
        extract_features_from_points(&Vec::new(), &moments, &grid),
        Err(EngineError::EmptyInput)
    );
}

#[test]
fn extract_of_two_points_has_these_values() {
    let descriptor = describe(&[(0.0, 0.0, 1.0), (10.0, 20.0, 3.0)]).unwrap();
    let mut expected = vec![5.0, 10.0, 2.0, 5.0, 10.0, 1.0, 0.0, 10.0, 0.0, 20.0, 1.0, 3.0, 2.0];
    // The first point sits on the lower edges, in cell (0, 0). The second one
    // sits on the last edge of both axes and so in no cell.
    let mut grid = vec![0.0; 100];
    grid[0] = 1.0;
    expected.append(&mut grid);
    assert_eq!(descriptor, expected);
}

#[test]
fn extract_counts_cells_row_by_row() {
    // x runs from 0 to 10 and y from 0 to 100: bins are 1 wide and 10 high.
    let raw = [
        (0.0, 0.0, 0.0),
        (10.0, 100.0, 0.0),
        (3.5, 27.0, 0.0),
        (3.9, 20.0, 0.0),
        (9.99, 99.0, 0.0),
        (0.0, 99.0, 0.0),
        (9.0, 0.0, 0.0),
    ];
    let descriptor = describe(&raw).unwrap();
    let cell = |i: usize, j: usize| descriptor[13 + 10 * i + j];
    assert_eq!(cell(0, 0), 1.0);
    assert_eq!(cell(3, 2), 2.0);
    assert_eq!(cell(9, 9), 1.0);
    assert_eq!(cell(0, 9), 1.0);
    assert_eq!(cell(9, 0), 1.0);
    let total: f64 = descriptor[13..].iter().sum();
    assert_eq!(total, 6.0);
    assert_eq!(descriptor[12], 7.0);
}

#[test]
fn an_axis_without_range_has_bins_of_width_one() {
    let descriptor = describe(&[(5.0, 7.0, 1.0)]).unwrap();
    assert_eq!(&descriptor[..13], &[5.0, 7.0, 1.0, 0.0, 0.0, 0.0, 5.0, 5.0, 7.0, 7.0, 1.0, 1.0, 1.0]);
    assert_eq!(descriptor[13], 1.0);
    assert!(descriptor[14..].iter().all(|c| *c == 0.0));

    let same_x = describe(&[(5.0, 0.0, 1.0), (5.0, 10.0, 1.0), (5.0, 4.0, 1.0)]).unwrap();
    assert_eq!(same_x[13], 1.0);
    assert_eq!(same_x[13 + 4], 1.0);
    assert_eq!(same_x[13..].iter().sum::<f64>(), 2.0);
}

#[test]
fn bin_width_is_the_tenth_or_one() {
    let tenth = single(0.7);
    assert_eq!(bin_width(single(1.0), single(8.0), tenth), tenth);
    assert_eq!(bin_width(single(8.0), single(8.0), tenth), single(1.0));
    assert_eq!(bin_width(single(-0.0), single(0.0), tenth), single(1.0));
    assert_eq!(bin_width(single(9.0), single(8.0), tenth), single(1.0));
    assert_eq!(bin_width(single(8.0), single(f32::NAN), tenth), single(1.0));
    assert_eq!(bin_width(single(f32::NEG_INFINITY), single(f32::INFINITY), tenth), tenth);
}

#[test]
fn extract_agrees_with_the_formulae_written_out() {
    for n in [1usize, 2, 5, 33, 150, 400] {
        let raw = scattered(n);
        assert_eq!(bits(&describe(&raw).unwrap()), bits(&by_hand(&raw)), "{n} points");
    }
    let line: Vec<(f32, f32, f32)> = (0..50).map(|i| (i as f32, 3.0, -(i as f32))).collect();
    assert_eq!(bits(&describe(&line).unwrap()), bits(&by_hand(&line)));
    let far = [(f32::MAX, f32::MIN, 0.0), (f32::MIN, f32::MAX, 1.0e-40), (0.0, 0.0, -1.0e-40)];
    assert_eq!(bits(&describe(&far).unwrap()), bits(&by_hand(&far)));
    let endless = [(f32::INFINITY, 1.0, 0.0), (2.0, f32::NEG_INFINITY, 0.0), (3.0, 4.0, 5.0)];
    assert_eq!(bits(&describe(&endless).unwrap()), bits(&by_hand(&endless)));
}

#[test]
fn extract_ignores_the_order_of_the_points() {
    let raw = scattered(64);
    let forward = describe(&raw).unwrap();
    let mut turned = raw.clone();
    turned.reverse();
    let mut shuffled = raw.clone();
    shuffled.rotate_left(17);
    shuffled.swap(3, 40);
    for other in [turned, shuffled] {
        let points = to_points(&other);
        let found = extent(&points).unwrap();
        // the same moments for both orders: what is compared is the part that
        // compares and counts
        let descriptor =
            extract_features_from_points(&points, &moments_of(&raw), &grid_of(&found)).unwrap();
        let descriptor: Vec<f64> = descriptor.iter().map(|d| f64::from_bits(d.bits)).collect();
        assert_eq!(descriptor, forward);
    }
}

#[test]
fn the_sign_of_a_zero_bound_is_that_of_the_first_least_and_last_greatest() {
    let points = to_points(&[(0.0, -0.0, 1.0), (-0.0, 0.0, 1.0)]);
    let found = extent(&points).unwrap();
    assert_eq!(found.x_min, single(0.0));
    assert_eq!(found.x_max, single(-0.0));
    assert_eq!(found.y_min, single(-0.0));
    assert_eq!(found.y_max, single(0.0));
    let raw = [(0.0f32, -0.0f32, 1.0f32), (-0.0, 0.0, 1.0)];
    assert_eq!(bits(&describe(&raw).unwrap()), bits(&by_hand(&raw)));
}

#[test]
fn extent_is_the_least_and_the_greatest_of_each_coordinate() {
    let points = to_points(&[(3.0, -1.0, 0.5), (-2.0, 8.0, 0.25), (7.5, 0.0, 9.0), (1.0, 1.0, 1.0)]);
    assert_eq!(
        extent(&points),
        Ok(Extent {
            x_min: single(-2.0),
            x_max: single(7.5),
            y_min: single(-1.0),
            y_max: single(8.0),
            value_min: single(0.25),
            value_max: single(9.0),
        })
    );
}

#[test]
fn count_in_cell_holds_the_lower_edge_and_not_the_upper() {
    let steps: Vec<Single> = (0..11).map(|i| single(i as f32)).collect();
    let grid = GridEdges { x: steps.clone().try_into().unwrap(), y: steps.try_into().unwrap() };
    let points = to_points(&[(2.0, 3.0, 0.0), (3.0, 3.0, 0.0), (2.5, 3.999, 0.0), (2.0, 4.0, 0.0)]);
    assert_eq!(count_in_cell(&points, &grid, 2, 3), 2);
    assert_eq!(count_in_cell(&points, &grid, 3, 3), 1);
    assert_eq!(count_in_cell(&points, &grid, 2, 4), 1);
    assert_eq!(count_in_cell(&points, &grid, 9, 9), 0);
    assert_eq!(GRID_SIZE, 10);
}

#[test]
fn a_point_is_a_number_when_no_coordinate_is_a_nan() {
    assert!(Point { x: single(1.0), y: single(f32::INFINITY), value: single(-0.0) }.is_number());
    assert!(!Point { x: single(f32::NAN), y: single(0.0), value: single(0.0) }.is_number());
    assert!(!Point { x: single(0.0), y: single(f32::NAN), value: single(0.0) }.is_number());
    assert!(!Point { x: single(0.0), y: single(0.0), value: single(f32::NAN) }.is_number());
}
