use hecras::unsteady::{
    node_series, interleave, prepare_unsteady, store_level, DownstreamBc, UnsteadyArgError,
};

#[test]
fn state_vector_interleaves_stage_and_discharge() {
    let z = [101.0_f64, 100.5, 100.0];
    let q = [50.0_f64, 49.0, 48.0];
    let u = interleave(&z, &q, 3);
    assert_eq!(u, vec![101.0, 50.0, 100.5, 49.0, 100.0, 48.0]);
    // only the first n nodes are taken
    let u2 = interleave(&z, &q, 2);
    assert_eq!(u2, vec![101.0, 50.0, 100.5, 49.0]);
}

#[test]
fn storing_a_level_fills_one_row() {
    let u = vec![1.0_f64, 10.0, 2.0, 20.0, 3.0, 30.0];
    let mut stage = vec![0.0_f64; 9];
    let mut discharge = vec![-1.0_f64; 9];
    store_level(&u, &mut stage, &mut discharge, 1, 3);
    assert_eq!(stage, vec![0.0, 0.0, 0.0, 1.0, 2.0, 3.0, 0.0, 0.0, 0.0]);
    assert_eq!(
        discharge,
        vec![-1.0, -1.0, -1.0, 10.0, 20.0, 30.0, -1.0, -1.0, -1.0]
    );
}

#[test]
fn stored_level_round_trips_through_the_columns() {
    let z = [5.0_f64, 4.0, 3.0, 2.0];
    let q = [7.0_f64, 7.5, 8.0, 8.5];
    let n = 4;
    let rows = 3;
    let mut stage = vec![0.0_f64; rows * n];
    let mut discharge = vec![0.0_f64; rows * n];
    let u = interleave(&z, &q, n);
    store_level(&u, &mut stage, &mut discharge, 2, n);
    assert_eq!(&stage[8..12], &z[..]);
    assert_eq!(&discharge[8..12], &q[..]);
    let inflow = node_series(&discharge, rows, n, 0);
    let outflow = node_series(&discharge, rows, n, n - 1);
    assert_eq!(inflow, vec![0.0, 0.0, 7.0]);
    assert_eq!(outflow, vec![0.0, 0.0, 8.5]);
}

#[test]
fn column_picks_one_node_per_level() {
    let data: Vec<u32> = (0..12).collect();
    assert_eq!(node_series(&data, 4, 3, 0), vec![0, 3, 6, 9]);
    assert_eq!(node_series(&data, 4, 3, 2), vec![2, 5, 8, 11]);
    assert_eq!(node_series(&data, 2, 3, 1), vec![1, 4]);
}

fn normal(r: Result<DownstreamBc<f64>, UnsteadyArgError>) -> f64 {
    match r {
        Ok(DownstreamBc::Normal(s)) => s,
        _ => panic!("expected a normal-depth boundary"),
    }
}

fn stage_series(r: Result<DownstreamBc<f64>, UnsteadyArgError>) -> Vec<f64> {
    match r {
        Ok(DownstreamBc::Stage(v)) => v,
        _ => panic!("expected a stage boundary"),
    }
}

fn err(r: Result<DownstreamBc<f64>, UnsteadyArgError>) -> UnsteadyArgError {
    match r {
        Err(e) => e,
        Ok(_) => panic!("expected an error"),
    }
}

#[test]
fn normal_boundary_takes_the_slope() {
    let r = prepare_unsteady(11, 10, 11, 11, 6, 5, "normal", Some(6e-4), None);
    assert_eq!(normal(r), 6e-4);
}

#[test]
fn scalar_stage_is_held_at_every_level() {
    let r = prepare_unsteady(3, 2, 3, 3, 5, 4, "stage", None, Some(vec![2.5]));
    assert_eq!(stage_series(r), vec![2.5; 5]);
}

#[test]
fn full_stage_series_is_kept() {
    let series = vec![1.0, 1.1, 1.2, 1.3];
    let r = prepare_unsteady(3, 2, 3, 3, 4, 3, "stage", Some(0.1), Some(series.clone()));
    assert_eq!(stage_series(r), series);
}

#[test]
fn shape_errors_come_in_order() {
    assert_eq!(
        err(prepare_unsteady(1, 0, 1, 1, 2, 1, "normal", Some(0.1), None)),
        UnsteadyArgError::TooFewSections
    );
    assert_eq!(
        err(prepare_unsteady(3, 3, 1, 1, 2, 1, "normal", Some(0.1), None)),
        UnsteadyArgError::ReachLengths { expected: 2, got: 3 }
    );
    assert_eq!(
        err(prepare_unsteady(3, 2, 3, 2, 2, 1, "normal", Some(0.1), None)),
        UnsteadyArgError::InitialState
    );
    assert_eq!(
        err(prepare_unsteady(3, 2, 2, 3, 2, 1, "normal", Some(0.1), None)),
        UnsteadyArgError::InitialState
    );
    assert_eq!(
        err(prepare_unsteady(3, 2, 3, 3, 7, 5, "normal", Some(0.1), None)),
        UnsteadyArgError::InflowLength { expected: 6, got: 7 }
    );
}

#[test]
fn boundary_errors() {
    assert_eq!(
        err(prepare_unsteady(3, 2, 3, 3, 6, 5, "normal", None, None)),
        UnsteadyArgError::MissingSlope
    );
    assert_eq!(
        err(prepare_unsteady(3, 2, 3, 3, 6, 5, "stage", Some(0.1), None)),
        UnsteadyArgError::MissingStage
    );
    assert_eq!(
        err(prepare_unsteady(3, 2, 3, 3, 6, 5, "stage", None, Some(vec![1.0, 2.0]))),
        UnsteadyArgError::StageLength { expected: 6 }
    );
    assert_eq!(
        err(prepare_unsteady(3, 2, 3, 3, 6, 5, "weir", Some(0.1), None)),
        UnsteadyArgError::UnknownBc("weir".to_string())
    );
}
