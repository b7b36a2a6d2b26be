use sampled_fn::grid::{get_x, GridError, Interpolation, SampledFunctionRegular1D};
use sampled_fn::ok;
use sampled_fn::range::NumRangeIterator;

fn squares() -> SampledFunctionRegular1D {
    // x = 0, 10, 20, 30 over [0, 40)
    SampledFunctionRegular1D::new(0, 40, vec![0, 10, 40, 90]).unwrap()
}

#[test]
fn new_rejects_fewer_than_two_samples() {
    assert_eq!(SampledFunctionRegular1D::new(0, 10, vec![]).err(), Some(GridError::Configuration));
    assert_eq!(SampledFunctionRegular1D::new(0, 10, vec![5]).err(), Some(GridError::Configuration));
}

#[test]
fn new_rejects_cells_narrower_than_one_unit() {
    assert_eq!(
        SampledFunctionRegular1D::new(0, 2, vec![1, 2, 3]).err(),
        Some(GridError::Configuration)
    );
    assert_eq!(SampledFunctionRegular1D::new(7, 7, vec![1, 2]).err(), Some(GridError::Configuration));
    assert_eq!(SampledFunctionRegular1D::new(9, 3, vec![1, 2]).err(), Some(GridError::Configuration));
    assert!(SampledFunctionRegular1D::new(0, 3, vec![1, 2, 3]).is_ok());
}

#[test]
fn queries_report_bounds_and_step() {
    let g = squares();
    assert_eq!(g.sample_count(), 4);
    assert_eq!(g.step(), 10);
    assert_eq!(g.length(), 40);
    assert_eq!(g.start(), 0);
    assert_eq!(g.end(), 40);
    assert_eq!(g.data(), &vec![0, 10, 40, 90]);
}

#[test]
fn grid_points_start_at_start_and_stay_below_end() {
    let g = SampledFunctionRegular1D::new(-20, 20, vec![0; 8]).unwrap();
    assert_eq!(g.get_x(0), -20);
    assert_eq!(g.last_x(), -20 + g.step() as i32 * 7);
    assert_eq!(g.last_x(), 15);
    assert!(g.last_x() < g.end());
    let h = SampledFunctionRegular1D::new(0, 11, vec![0; 3]).unwrap();
    assert_eq!(h.get_x(0), 0);
    assert!(h.last_x() < 11);
}

#[test]
fn grid_points_round_up() {
    assert_eq!(get_x(0, 10, 3, 0), 0);
    assert_eq!(get_x(0, 10, 3, 1), 4);
    assert_eq!(get_x(0, 10, 3, 2), 7);
    assert_eq!(get_x(-10, 10, 4, 3), 5);
    assert_eq!(get_x(10, 0, 4, 1), 8);
    assert_eq!(get_x(i32::MIN, i32::MAX, 2, 1), 0);
}

#[test]
fn index_round_trips_when_cells_are_not_whole() {
    let g = SampledFunctionRegular1D::new(0, 10, vec![0; 3]).unwrap();
    assert_eq!((g.get_x(0), g.get_x(1), g.get_x(2)), (0, 4, 7));
    for i in 0..3 {
        assert_eq!(g.get_index_from_x(g.get_x(i)), Some(i));
    }
    assert_eq!(g.get_index_from_x(3), Some(0));
    assert_eq!(g.get_index_from_x(6), Some(1));
    assert_eq!(g.get_index_from_x(9), Some(2));
    let h = SampledFunctionRegular1D::new(-7, 100, vec![0; 9]).unwrap();
    for i in 0..9 {
        assert_eq!(h.get_index_from_x(h.get_x(i)), Some(i));
    }
}

#[test]
fn interpolation_is_exact_at_nodes_when_cells_are_not_whole() {
    let g = SampledFunctionRegular1D::new(0, 1000, vec![0, 332, 0]).unwrap();
    assert_eq!(g.get_x(1), 334);
    assert_eq!(g.interpolate_y(334, Interpolation::Linear), Some(332));
    assert_eq!(g.interpolate_y(0, Interpolation::Linear), Some(0));
    assert_eq!(g.interpolate_y(167, Interpolation::Linear), Some(166));
}

#[test]
fn index_round_trips_through_grid_points() {
    let g = SampledFunctionRegular1D::new(-20, 20, vec![0; 8]).unwrap();
    for i in 0..8 {
        assert_eq!(g.get_index_from_x(g.get_x(i)), Some(i));
    }
}

#[test]
fn index_of_coordinates_around_the_domain() {
    let g = squares();
    assert_eq!(g.get_index_from_x(-1), None);
    assert_eq!(g.get_index_from_x(-100), None);
    assert_eq!(g.get_index_from_x(0), Some(0));
    assert_eq!(g.get_index_from_x(9), Some(0));
    assert_eq!(g.get_index_from_x(10), Some(1));
    assert_eq!(g.get_index_from_x(39), Some(3));
    assert_eq!(g.get_index_from_x(40), Some(4));
    assert_eq!(g.get_index_from_x(95), Some(9));
}

#[test]
fn index_subtracts_start_first() {
    let g = SampledFunctionRegular1D::new(100, 140, vec![0; 4]).unwrap();
    assert_eq!(g.get_index_from_x(100), Some(0));
    assert_eq!(g.get_index_from_x(125), Some(2));
    assert_eq!(g.get_index_from_x(99), None);
}

#[test]
fn interpolation_is_exact_at_nodes() {
    let g = squares();
    for i in 0..3 {
        assert_eq!(g.interpolate_y(g.get_x(i), Interpolation::Linear), Some(g.data()[i]));
    }
}

#[test]
fn interpolation_lies_on_the_line_between_nodes() {
    let g = squares();
    assert_eq!(g.interpolate_y(5, Interpolation::Linear), Some(5));
    assert_eq!(g.interpolate_y(15, Interpolation::Linear), Some(25));
    assert_eq!(g.interpolate_y(27, Interpolation::Linear), Some(75));
    for x in 11..20 {
        let y = g.interpolate_y(x, Interpolation::Linear).unwrap();
        assert_eq!((y - 10) * 10, (40 - 10) * (x - 10));
    }
}

#[test]
fn interpolation_rounds_toward_the_left_sample() {
    let up = SampledFunctionRegular1D::new(0, 20, vec![0, 7]).unwrap();
    assert_eq!(up.interpolate_y(5, Interpolation::Linear), Some(3));
    assert_eq!(up.interpolate_y(9, Interpolation::Linear), Some(6));
    let down = SampledFunctionRegular1D::new(0, 20, vec![0, -25]).unwrap();
    assert_eq!(down.interpolate_y(4, Interpolation::Linear), Some(-10));
    assert_eq!(down.interpolate_y(3, Interpolation::Linear), Some(-7));
}

#[test]
fn interpolation_fails_outside_the_domain() {
    let g = squares();
    assert_eq!(g.interpolate_y(-1, Interpolation::Linear), None);
    assert_eq!(g.interpolate_y(30, Interpolation::Linear), None);
    assert_eq!(g.interpolate_y(35, Interpolation::Linear), None);
    assert_eq!(g.interpolate_y(40, Interpolation::Linear), None);
    assert_eq!(g.interpolate_y(1000, Interpolation::Linear), None);
}

#[test]
fn interpolation_with_extreme_samples() {
    let g = SampledFunctionRegular1D::new(i32::MIN, i32::MAX, vec![i32::MAX, i32::MIN]).unwrap();
    assert_eq!(g.interpolate_y(i32::MIN, Interpolation::Linear), Some(i32::MAX));
    assert_eq!(g.interpolate_y(-2, Interpolation::Linear), Some(i32::MIN + 4));
    assert_eq!(g.interpolate_y(-1, Interpolation::Linear), Some(i32::MIN + 2));
    assert_eq!(g.interpolate_y(0, Interpolation::Linear), None);
}

#[test]
fn iteration_walks_points_in_order() {
    let g = squares();
    let mut it = g.iter();
    let mut seen = Vec::new();
    while let Some(p) = it.next() {
        seen.push(p);
    }
    assert_eq!(seen, vec![(0, 0), (10, 10), (20, 40), (30, 90)]);
    assert_eq!(it.next(), None);
    let mut again = g.iter();
    assert_eq!(again.next(), Some((0, 0)));
}

#[test]
fn from_function_samples_at_grid_points() {
    let g = SampledFunctionRegular1D::from_function(&|x: i32| 3 * x + 1, 0, 12, 4).unwrap();
    assert_eq!(g.data(), &vec![1, 10, 19, 28]);
    assert_eq!(g.step(), 3);
    assert_eq!(
        SampledFunctionRegular1D::from_function(&|x: i32| x, 0, 12, 1).err(),
        Some(GridError::Configuration)
    );
    assert_eq!(
        SampledFunctionRegular1D::from_function(&|x: i32| x, 0, 3, 4).err(),
        Some(GridError::Configuration)
    );
}

#[test]
fn sine_grid_end_to_end() {
    // Coordinates in thousandths of a radian over [0, 2*pi); samples in millionths.
    let sine = |x: i32| ((x as f64 / 1000.0).sin() * 1_000_000.0).round() as i32;
    let two_pi = (2.0 * std::f64::consts::PI * 1000.0) as i32;
    let g = SampledFunctionRegular1D::from_function(&sine, 0, two_pi, 10).unwrap();
    let pi = (std::f64::consts::PI * 1000.0) as i32;
    assert!((g.get_x(5) - pi).abs() <= 1);
    assert_eq!(g.data()[0], 0);
    let (x4, x5) = (g.get_x(4), g.get_x(5));
    let (y4, y5) = (sine(x4), sine(x5));
    assert_eq!((g.data()[4], g.data()[5]), (y4, y5));
    let x = (x4 + x5) / 2;
    let y = g.interpolate_y(x, Interpolation::Linear).unwrap();
    let blend = y4 as f64 + (y5 - y4) as f64 * (x - x4) as f64 / (x5 - x4) as f64;
    assert!((y as f64 - blend).abs() < 1.0);
    assert!(y <= y4 && y >= y5);
}

#[test]
fn ok_is_unit_success() {
    assert_eq!(ok::<String>(), Ok(()));
}

#[test]
fn range_cuts_interval_into_equal_steps() {
    let mut r = NumRangeIterator::new(10, 20, 4);
    let mut seen = Vec::new();
    while let Some(x) = r.next() {
        seen.push(x);
    }
    assert_eq!(seen, vec![10, 13, 15, 18]);
    assert_eq!(r.next(), None);
    assert_eq!(NumRangeIterator::new(0, 5, 0).next(), None);
}
