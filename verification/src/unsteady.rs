//! Layout and boundary-condition logic of the 1D unsteady (Saint-Venant) router.
//!
//! The router's unknowns at the new time level form one vector
//! `u = [z0, q0, z1, q1, ...]` of length `2 * n`: stage and discharge of node `i` at
//! positions `2 * i` and `2 * i + 1`. Its results are row-major `[time][node]` arrays
//! with one row per time level. This module holds those layouts, the downstream
//! boundary condition, and the checks that a routing request has consistent shapes.
use vstd::prelude::*;

verus! {

/// Downstream boundary condition of the router.
pub enum DownstreamBc<T> {
    /// Prescribed stage at each time level (length `nsteps + 1`).
    Stage(Vec<T>),
    /// Normal-depth rating `Q = K(z) * sqrt(slope)` with this bed slope.
    Normal(T),
}

/// The interleaved state vector of `n` nodes: stage at even positions, discharge at odd.
pub open spec fn interleaved<T>(z: Seq<T>, q: Seq<T>, n: int) -> Seq<T> {
    Seq::new((2 * n) as nat, |k: int| if k % 2 == 0 { z[k / 2] } else { q[k / 2] })
}

/// Builds the state vector `[z0, q0, z1, q1, ...]` of the first `n` nodes.
pub fn interleave<T: Copy>(z: &[T], q: &[T], n: usize) -> (u: Vec<T>)
    requires
        z@.len() >= n,
        q@.len() >= n,
        2 * n <= usize::MAX,
    ensures
        u@ == interleaved(z@, q@, n as int),
{
    let mut u: Vec<T> = Vec::new();
    let mut i: usize = 0;
    while i < n
        invariant
            z@.len() >= n,
            q@.len() >= n,
            2 * n <= usize::MAX,
            i <= n,
            u.len() == 2 * i,
            forall|k: int| 0 <= k < u.len() ==> u@[k] == #[trigger] interleaved(z@, q@, n as int)[k],
        decreases n - i,
    {
        u.push(z[i]);
        u.push(q[i]);
        proof {
            assert((2 * i) / 2 == i && (2 * i) % 2 == 0);
            assert((2 * i + 1) / 2 == i && (2 * i + 1) % 2 == 1);
        }
        i = i + 1;
    }
    assert(u@ =~= interleaved(z@, q@, n as int));
    u
}

/// Node `i` of the state vector has its stage at position `2 * i` and its discharge at
/// position `2 * i + 1`.
pub proof fn lemma_interleaved_positions<T>(z: Seq<T>, q: Seq<T>, n: int, i: int)
    requires
        0 <= i < n,
    ensures
        interleaved(z, q, n).len() == 2 * n,
        interleaved(z, q, n)[2 * i] == z[i],
        interleaved(z, q, n)[2 * i + 1] == q[i],
{
    assert((2 * i) / 2 == i && (2 * i) % 2 == 0);
    assert((2 * i + 1) / 2 == i && (2 * i + 1) % 2 == 1);
}

/// Storing a level writes node `i`'s value of the chosen part into position
/// `row * n + i` and leaves every position outside that row unchanged.
pub proof fn lemma_with_level_positions<T>(rows: Seq<T>, u: Seq<T>, row: int, n: int, part: int, i: int, p: int)
    requires
        0 <= i < n,
        0 <= row * n,
        row * n + n <= rows.len(),
    ensures
        with_level(rows, u, row, n, part).len() == rows.len(),
        with_level(rows, u, row, n, part)[row * n + i] == u[2 * i + part],
        0 <= p < rows.len() && !(row * n <= p < row * n + n) ==> with_level(rows, u, row, n, part)[p] == rows[p],
{
}

/// `rows` with row `row` of an `n`-column row-major array replaced by the stages
/// (`part == 0`) or the discharges (`part == 1`) of the state vector `u`.
pub open spec fn with_level<T>(rows: Seq<T>, u: Seq<T>, row: int, n: int, part: int) -> Seq<T> {
    Seq::new(
        rows.len(),
        |p: int|
            if row * n <= p < row * n + n {
                u[2 * (p - row * n) + part]
            } else {
                rows[p]
            },
    )
}

/// Records the state vector `u` as time level `row` of the stage and discharge arrays.
pub fn store_level<T: Copy>(u: &Vec<T>, stage: &mut Vec<T>, discharge: &mut Vec<T>, row: usize, n: usize)
    requires
        u.len() >= 2 * n,
        old(stage).len() >= row * n + n,
        old(discharge).len() >= row * n + n,
    ensures
        final(stage)@ == with_level(old(stage)@, u@, row as int, n as int, 0),
        final(discharge)@ == with_level(old(discharge)@, u@, row as int, n as int, 1),
{
    let base = row * n;
    let mut i: usize = 0;
    while i < n
        invariant
            base == row * n,
            u.len() >= 2 * n,
            stage.len() == old(stage).len(),
            discharge.len() == old(discharge).len(),
            stage.len() >= base + n,
            discharge.len() >= base + n,
            i <= n,
            forall|p: int|
                0 <= p < stage.len() ==> #[trigger] stage@[p] == (if base <= p < base + i {
                    u@[2 * (p - base)]
                } else {
                    old(stage)@[p]
                }),
            forall|p: int|
                0 <= p < discharge.len() ==> #[trigger] discharge@[p] == (if base <= p < base + i {
                    u@[2 * (p - base) + 1]
                } else {
                    old(discharge)@[p]
                }),
        decreases n - i,
    {
        let zs = u[2 * i];
        let qs = u[2 * i + 1];
        stage.set(base + i, zs);
        discharge.set(base + i, qs);
        i = i + 1;
    }
    assert(stage@ =~= with_level(old(stage)@, u@, row as int, n as int, 0));
    assert(discharge@ =~= with_level(old(discharge)@, u@, row as int, n as int, 1));
}

/// Column `c` of a row-major array with `cols` columns, over its first `rows` rows.
pub open spec fn node_series_spec<T>(data: Seq<T>, rows: int, cols: int, c: int) -> Seq<T> {
    Seq::new(rows as nat, |k: int| data[k * cols + c])
}

/// Column `c` of a row-major `rows` by `cols` array: the time series of one node, such as
/// the inflow (node 0) or the outflow (the last node) of a routing run.
pub fn node_series<T: Copy>(data: &Vec<T>, rows: usize, cols: usize, c: usize) -> (r: Vec<T>)
    requires
        c < cols,
        data.len() >= rows * cols,
    ensures
        r@ == node_series_spec(data@, rows as int, cols as int, c as int),
{
    let mut r: Vec<T> = Vec::new();
    let mut k: usize = 0;
    while k < rows
        invariant
            c < cols,
            data.len() >= rows * cols,
            k <= rows,
            r.len() == k,
            forall|p: int| 0 <= p < k ==> r@[p] == #[trigger] node_series_spec(data@, rows as int, cols as int, c as int)[p],
        decreases rows - k,
    {
        proof {
            assert(k * cols + c < rows * cols) by (nonlinear_arith)
                requires
                    k < rows,
                    c < cols,
            ;
        }
        r.push(data[k * cols + c]);
        k = k + 1;
    }
    assert(r@ =~= node_series_spec(data@, rows as int, cols as int, c as int));
    r
}

/// A time level stored from an interleaved state vector gives back, in its row of the
/// stage array, the stages of the nodes, and in its row of the discharge array, their
/// discharges; the series of any node at that level is that node's stage and discharge.
pub proof fn lemma_level_round_trip<T>(
    z: Seq<T>,
    q: Seq<T>,
    stage: Seq<T>,
    discharge: Seq<T>,
    rows: int,
    row: int,
    n: int,
    node: int,
)
    requires
        z.len() >= n,
        q.len() >= n,
        0 <= row < rows,
        0 <= node < n,
        stage.len() >= rows * n,
        discharge.len() >= rows * n,
    ensures
        with_level(stage, interleaved(z, q, n), row, n, 0).subrange(row * n, row * n + n) =~= z.take(n),
        with_level(discharge, interleaved(z, q, n), row, n, 1).subrange(row * n, row * n + n) =~= q.take(n),
        node_series_spec(with_level(stage, interleaved(z, q, n), row, n, 0), rows, n, node)[row] == z[node],
        node_series_spec(with_level(discharge, interleaved(z, q, n), row, n, 1), rows, n, node)[row] == q[node],
{
    assert(row * n + n <= rows * n) by (nonlinear_arith)
        requires
            0 <= row < rows,
            n >= 0,
    ;
    assert(0 <= row * n) by (nonlinear_arith)
        requires
            row >= 0,
            n >= 0,
    ;
    let u = interleaved(z, q, n);
    assert forall|p: int| row * n <= p < row * n + n implies
        #[trigger] u[2 * (p - row * n)] == z[p - row * n] && u[2 * (p - row * n) + 1] == q[p - row * n] by {
        let i = p - row * n;
        assert((2 * i) / 2 == i && (2 * i) % 2 == 0);
        assert((2 * i + 1) / 2 == i && (2 * i + 1) % 2 == 1);
    }
    let i = node;
    assert((2 * i) / 2 == i && (2 * i) % 2 == 0);
    assert((2 * i + 1) / 2 == i && (2 * i + 1) % 2 == 1);
}

/// Why a routing request is refused before any computation.
#[derive(PartialEq, Eq, Debug)]
pub enum UnsteadyArgError {
    /// Fewer than two cross sections.
    TooFewSections,
    /// The reach lengths are not one fewer than the sections.
    ReachLengths { expected: usize, got: usize },
    /// The initial stage or discharge does not give one value per section.
    InitialState,
    /// The inflow hydrograph does not give one value per time level.
    InflowLength { expected: usize, got: usize },
    /// A normal-depth boundary without a slope.
    MissingSlope,
    /// A stage boundary without a stage series.
    MissingStage,
    /// A stage series that is neither one value nor one per time level.
    StageLength { expected: usize },
    /// A downstream boundary name other than `normal` or `stage`.
    UnknownBc(String),
}

/// The first shape error of a routing request, if any, in the order the checks are made.
pub open spec fn unsteady_shape_error(
    n_sections: int,
    n_reach: int,
    n_stage: int,
    n_q: int,
    n_inflow: int,
    n_steps: int,
) -> Option<UnsteadyArgError> {
    if n_sections < 2 {
        Some(UnsteadyArgError::TooFewSections)
    } else if n_reach != n_sections - 1 {
        Some(UnsteadyArgError::ReachLengths { expected: (n_sections - 1) as usize, got: n_reach as usize })
    } else if n_stage != n_sections || n_q != n_sections {
        Some(UnsteadyArgError::InitialState)
    } else if n_inflow != n_steps + 1 {
        Some(UnsteadyArgError::InflowLength { expected: (n_steps + 1) as usize, got: n_inflow as usize })
    } else {
        None
    }
}

/// A routing request over `n_sections` sections and `n_steps` time steps has consistent
/// shapes: at least two sections, one reach length between each pair of neighbouring
/// sections, one initial stage and discharge per section, and one inflow per time level.
pub open spec fn shapes_consistent(
    n_sections: int,
    n_reach: int,
    n_stage: int,
    n_q: int,
    n_inflow: int,
    n_steps: int,
) -> bool {
    &&& n_sections >= 2
    &&& n_reach == n_sections - 1
    &&& n_stage == n_sections
    &&& n_q == n_sections
    &&& n_inflow == n_steps + 1
}

/// A request is refused for its shapes exactly when they are inconsistent; it is refused
/// for too few sections exactly when it has fewer than two, and for its inflow exactly
/// when everything before the inflow is consistent and the inflow does not give one value
/// per time level.
pub proof fn lemma_shape_error_exactly(
    n_sections: int,
    n_reach: int,
    n_stage: int,
    n_q: int,
    n_inflow: int,
    n_steps: int,
)
    requires
        n_sections >= 0,
        n_reach >= 0,
        n_inflow >= 0,
        n_steps >= 0,
        n_steps + 1 <= usize::MAX,
        n_sections <= usize::MAX,
        n_reach <= usize::MAX,
        n_inflow <= usize::MAX,
    ensures
        unsteady_shape_error(n_sections, n_reach, n_stage, n_q, n_inflow, n_steps) is None
            <==> shapes_consistent(n_sections, n_reach, n_stage, n_q, n_inflow, n_steps),
        (unsteady_shape_error(n_sections, n_reach, n_stage, n_q, n_inflow, n_steps) == Some(
            UnsteadyArgError::TooFewSections,
        )) <==> n_sections < 2,
        (unsteady_shape_error(n_sections, n_reach, n_stage, n_q, n_inflow, n_steps) == Some(
            UnsteadyArgError::InflowLength { expected: (n_steps + 1) as usize, got: n_inflow as usize },
        )) <==> (n_sections >= 2 && n_reach == n_sections - 1 && n_stage == n_sections && n_q == n_sections
            && n_inflow != n_steps + 1),
{
}

/// Checks the shapes of a routing request over `n_sections` sections and `n_steps` time
/// steps, then builds its downstream boundary condition from its name: `"normal"` takes
/// the slope, `"stage"` takes a stage series of one value per time level, or a single
/// value held at every time level.
pub fn prepare_unsteady<T: Copy>(
    n_sections: usize,
    n_reach: usize,
    n_stage: usize,
    n_q: usize,
    n_inflow: usize,
    n_steps: usize,
    downstream: &str,
    slope: Option<T>,
    stage: Option<Vec<T>>,
) -> (r: Result<DownstreamBc<T>, UnsteadyArgError>)
    requires
        n_steps < usize::MAX,
    ensures
        r is Ok ==> shapes_consistent(
            n_sections as int,
            n_reach as int,
            n_stage as int,
            n_q as int,
            n_inflow as int,
            n_steps as int,
        ),
        (r matches Err(UnsteadyArgError::TooFewSections)) <==> n_sections < 2,
        (r matches Err(UnsteadyArgError::ReachLengths { expected, got })) <==> (n_sections >= 2 && n_reach
            != n_sections - 1),
        (r matches Err(UnsteadyArgError::InitialState)) <==> (n_sections >= 2 && n_reach == n_sections - 1 && (
        n_stage != n_sections || n_q != n_sections)),
        (r matches Err(UnsteadyArgError::InflowLength { expected, got })) <==> (n_sections >= 2 && n_reach
            == n_sections - 1 && n_stage == n_sections && n_q == n_sections && n_inflow != n_steps + 1),
        unsteady_shape_error(n_sections as int, n_reach as int, n_stage as int, n_q as int, n_inflow as int, n_steps as int)
            matches Some(e) ==> r == Err::<DownstreamBc<T>, UnsteadyArgError>(e),
        unsteady_shape_error(n_sections as int, n_reach as int, n_stage as int, n_q as int, n_inflow as int, n_steps as int)
            is None ==> {
            if downstream@ == "normal"@ {
                match slope {
                    Some(s) => r matches Ok(DownstreamBc::Normal(v)) && v == s,
                    None => r == Err::<DownstreamBc<T>, UnsteadyArgError>(UnsteadyArgError::MissingSlope),
                }
            } else if downstream@ == "stage"@ {
                match stage {
                    None => r == Err::<DownstreamBc<T>, UnsteadyArgError>(UnsteadyArgError::MissingStage),
                    Some(raw) => if raw@.len() == 1 {
                        r matches Ok(DownstreamBc::Stage(series)) && series@ == Seq::new(
                            (n_steps + 1) as nat,
                            |k: int| raw@[0],
                        )
                    } else if raw@.len() == n_steps + 1 {
                        r matches Ok(DownstreamBc::Stage(series)) && series@ == raw@
                    } else {
                        r == Err::<DownstreamBc<T>, UnsteadyArgError>(
                            UnsteadyArgError::StageLength { expected: (n_steps + 1) as usize },
                        )
                    },
                }
            } else {
                r matches Err(UnsteadyArgError::UnknownBc(name)) && name@ == downstream@
            }
        },
{
    if n_sections < 2 {
        return Err(UnsteadyArgError::TooFewSections);
    }
    if n_reach != n_sections - 1 {
        return Err(UnsteadyArgError::ReachLengths { expected: n_sections - 1, got: n_reach });
    }
    if n_stage != n_sections || n_q != n_sections {
        return Err(UnsteadyArgError::InitialState);
    }
    let levels = n_steps + 1;
    if n_inflow != levels {
        return Err(UnsteadyArgError::InflowLength { expected: levels, got: n_inflow });
    }
    let name: String = downstream.to_owned();
    let normal: String = "normal".to_owned();
    let stage_name: String = "stage".to_owned();
    if name == normal {
        match slope {
            Some(s) => Ok(DownstreamBc::Normal(s)),
            None => Err(UnsteadyArgError::MissingSlope),
        }
    } else if name == stage_name {
        match stage {
            None => Err(UnsteadyArgError::MissingStage),
            Some(raw) => {
                if raw.len() == 1 {
                    let v = raw[0];
                    let mut series: Vec<T> = Vec::new();
                    let mut k: usize = 0;
                    while k < levels
                        invariant
                            k <= levels,
                            series.len() == k,
                            forall|p: int| 0 <= p < k ==> #[trigger] series@[p] == v,
                        decreases levels - k,
                    {
                        series.push(v);
                        k = k + 1;
                    }
                    assert(series@ =~= Seq::new(levels as nat, |p: int| raw@[0]));
                    Ok(DownstreamBc::Stage(series))
                } else if raw.len() == levels {
                    Ok(DownstreamBc::Stage(raw))
                } else {
                    Err(UnsteadyArgError::StageLength { expected: levels })
                }
            },
        }
    } else {
        Err(UnsteadyArgError::UnknownBc(name))
    }
}

} // verus!
