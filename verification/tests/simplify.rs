use geo::{Area, Coord, Distance, Euclidean, Line, LineString, SimplifyIdx, SimplifyVwIdx, Triangle};
use rdp::{
    simplify_rdp, simplify_rdp_idx, simplify_visvalingam, simplify_visvalingam_idx,
    simplify_visvalingamp, simplify_visvalingamp_idx, AdjacencyTable, Point, SimplifyError,
};

fn point(pair: [f64; 2]) -> Point {
    Point { x: pair[0].to_bits(), y: pair[1].to_bits() }
}

fn points(pairs: &[[f64; 2]]) -> Vec<Point> {
    pairs.iter().map(|pair| point(*pair)).collect()
}

fn coord(p: Point) -> Coord<f64> {
    Coord { x: f64::from_bits(p.x), y: f64::from_bits(p.y) }
}

fn area(a: Point, b: Point, c: Point) -> u64 {
    Triangle::new(coord(a), coord(b), coord(c)).unsigned_area().to_bits()
}

fn distance(p: Point, a: Point, b: Point) -> u64 {
    let (p, a, b) = (coord(p), coord(a), coord(b));
    if a == b {
        return Euclidean.distance(p, a).to_bits();
    }
    let cross = (b.x - a.x) * (p.y - a.y) - (b.y - a.y) * (p.x - a.x);
    (cross.abs() / Euclidean.distance(a, b)).to_bits()
}

fn segment_distance(p: Point, a: Point, b: Point) -> u64 {
    Euclidean.distance(coord(p), &Line::new(coord(a), coord(b))).to_bits()
}

fn anything_goes(_table: &AdjacencyTable, _current: usize) -> bool {
    true
}

fn scattered(count: usize, seed: u64) -> Vec<[f64; 2]> {
    let mut state = seed;
    let mut next = move || {
        state = state.wrapping_mul(6364136223846793005).wrapping_add(1442695040888963407);
        ((state >> 11) as f64) / ((1u64 << 53) as f64) * 100.0
    };
    (0..count).map(|_| [next(), next()]).collect()
}

fn rdp_example() -> Vec<[f64; 2]> {
    vec![[0.0, 0.0], [5.0, 4.0], [11.0, 5.5], [17.3, 3.2], [27.8, 0.1]]
}

fn vw_example() -> Vec<[f64; 2]> {
    vec![[5.0, 2.0], [3.0, 8.0], [6.0, 20.0], [7.0, 25.0], [10.0, 10.0]]
}

#[test]
fn test_ffi_rdp_simplification() {
    let input = vec![
        [0.0, 0.0],
        [5.0, 4.0],
        [11.0, 5.5],
        [17.3, 3.2],
        [27.8, 0.1],
    ];
    let output = vec![[0.0, 0.0], [5.0, 4.0], [11.0, 5.5], [27.8, 0.1]];
    let transformed = simplify_rdp(&points(&input), 1.0_f64.to_bits(), distance);
    assert_eq!(transformed, Ok(points(&output)));
}

#[test]
fn test_ffi_rdp_idx_simplification() {
    let input = vec![
        [0.0, 0.0],
        [5.0, 4.0],
        [11.0, 5.5],
        [17.3, 3.2],
        [27.8, 0.1],
    ];
    let output = vec![0, 1, 2, 4];
    let transformed = simplify_rdp_idx(&points(&input), 1.0_f64.to_bits(), distance);
    assert_eq!(transformed, Ok(output));
}

#[test]
fn test_ffi_visvalingam_simplification() {
    let input = vec![
        [5.0, 2.0],
        [3.0, 8.0],
        [6.0, 20.0],
        [7.0, 25.0],
        [10.0, 10.0],
    ];
    let output = vec![[5.0, 2.0], [7.0, 25.0], [10.0, 10.0]];
    let transformed = simplify_visvalingam(&points(&input), 30.0_f64.to_bits(), area);
    assert_eq!(transformed, Ok(points(&output)));
}

#[test]
fn test_ffi_visvalingam_idx_simplification() {
    let input = vec![
        [5.0, 2.0],
        [3.0, 8.0],
        [6.0, 20.0],
        [7.0, 25.0],
        [10.0, 10.0],
    ];
    let output = vec![0, 3, 4];
    let transformed = simplify_visvalingam_idx(&points(&input), 30.0_f64.to_bits(), area);
    assert_eq!(transformed, Ok(output));
}

#[test]
fn test_ffi_visvalingamp_simplification() {
    let input = vec![
        [5.0, 2.0],
        [3.0, 8.0],
        [6.0, 20.0],
        [7.0, 25.0],
        [10.0, 10.0],
    ];
    let output = vec![[5.0, 2.0], [7.0, 25.0], [10.0, 10.0]];
    let line = points(&input);
    let simple = |table: &AdjacencyTable, current: usize| {
        let (left, right) = (table.left(current).unwrap(), table.right(current).unwrap());
        let bridge = Line::new(coord(line[left]), coord(line[right]));
        let touches = |i: usize| i == left || i == current || i == right;
        let mut at = 0;
        while let Some(next) = table.right(at) {
            if !touches(at) && !touches(next) {
                let segment = Line::new(coord(line[at]), coord(line[next]));
                if geo::Intersects::intersects(&bridge, &segment) {
                    return false;
                }
            }
            at = next;
        }
        true
    };
    let transformed = simplify_visvalingamp(&line, 30.0_f64.to_bits(), area, simple);
    assert_eq!(transformed, Ok(points(&output)));
}

#[test]
fn condition_that_permits_everything_changes_nothing() {
    let line = points(&scattered(60, 7));
    let tolerance = 40.0_f64.to_bits();
    assert_eq!(
        simplify_visvalingamp_idx(&line, tolerance, area, anything_goes),
        simplify_visvalingam_idx(&line, tolerance, area)
    );
    assert_eq!(
        simplify_visvalingamp(&line, tolerance, area, anything_goes),
        simplify_visvalingam(&line, tolerance, area)
    );
}

#[test]
fn refused_point_is_retained_and_reconsidered() {
    // Triangle areas at the start: 21 at position 1, 1.5 at 2, 15 at 3.
    // Position 2 is refused whenever its turn comes, so 3 goes first, then 1;
    // the triangle of 2 has then grown to 41, above the tolerance.
    let line = points(&vw_example());
    let not_the_middle = |_table: &AdjacencyTable, current: usize| current != 2;
    assert_eq!(
        simplify_visvalingamp_idx(&line, 30.0_f64.to_bits(), area, not_the_middle),
        Ok(vec![0, 2, 4])
    );
    let first = line[0];
    let not_next_to_the_start =
        |table: &AdjacencyTable, current: usize| line[table.left(current).unwrap()] != first;
    // Position 2 (1.5) goes; position 1 (then 29) is refused for good, as its
    // left neighbour is the start; position 3 (then 55.5) is above the tolerance.
    assert_eq!(
        simplify_visvalingamp_idx(&line, 30.0_f64.to_bits(), area, not_next_to_the_start),
        Ok(vec![0, 1, 3, 4])
    );
}

#[test]
fn refused_everywhere_retains_everything() {
    let line = points(&scattered(25, 3));
    let never = |_table: &AdjacencyTable, _current: usize| false;
    let all: Vec<usize> = (0..25).collect();
    assert_eq!(simplify_visvalingamp_idx(&line, 1.0e9_f64.to_bits(), area, never), Ok(all));
    assert_eq!(simplify_visvalingamp(&line, 1.0e9_f64.to_bits(), area, never), Ok(line.clone()));
}

#[test]
fn empty_single_and_pair_come_back_unchanged() {
    let tolerances: [f64; 6] = [0.0, 1.0, 1.0e300, -5.0, f64::INFINITY, f64::NAN];
    let lines = [
        vec![],
        vec![[3.5, -2.0]],
        vec![[3.5, -2.0], [8.0, 9.0]],
        vec![[f64::NAN, 0.0], [f64::INFINITY, 1.0]],
    ];
    for pairs in lines.iter() {
        let line = points(pairs);
        let all: Vec<usize> = (0..line.len()).collect();
        for tolerance in tolerances.iter() {
            let e = tolerance.to_bits();
            assert_eq!(simplify_rdp(&line, e, distance), Ok(line.clone()));
            assert_eq!(simplify_rdp_idx(&line, e, distance), Ok(all.clone()));
            assert_eq!(simplify_visvalingam(&line, e, area), Ok(line.clone()));
            assert_eq!(simplify_visvalingam_idx(&line, e, area), Ok(all.clone()));
            assert_eq!(simplify_visvalingamp(&line, e, area, anything_goes), Ok(line.clone()));
            assert_eq!(simplify_visvalingamp_idx(&line, e, area, anything_goes), Ok(all.clone()));
        }
    }
}

#[test]
fn tolerance_that_is_not_finite_is_declined() {
    let line = points(&[[0.0, 0.0], [1.0, 1.0], [2.0, 0.0]]);
    for tolerance in [f64::NAN, f64::INFINITY, f64::NEG_INFINITY] {
        let e = tolerance.to_bits();
        assert_eq!(simplify_rdp(&line, e, distance), Err(SimplifyError::NonFiniteTolerance));
        assert_eq!(simplify_rdp_idx(&line, e, distance), Err(SimplifyError::NonFiniteTolerance));
        assert_eq!(simplify_visvalingam(&line, e, area), Err(SimplifyError::NonFiniteTolerance));
        assert_eq!(
            simplify_visvalingam_idx(&line, e, area),
            Err(SimplifyError::NonFiniteTolerance)
        );
        assert_eq!(
            simplify_visvalingamp_idx(&line, e, area, anything_goes),
            Err(SimplifyError::NonFiniteTolerance)
        );
    }
}

#[test]
fn first_coordinate_that_is_not_finite_is_named() {
    let line = points(&[
        [0.0, 0.0],
        [1.0, 1.0],
        [2.0, f64::INFINITY],
        [f64::NAN, 0.0],
        [4.0, 0.0],
    ]);
    let e = 1.0_f64.to_bits();
    let expected = SimplifyError::NonFiniteCoordinate { index: 2 };
    assert_eq!(simplify_rdp(&line, e, distance), Err(expected));
    assert_eq!(simplify_rdp_idx(&line, e, distance), Err(expected));
    assert_eq!(simplify_visvalingam(&line, e, area), Err(expected));
    assert_eq!(simplify_visvalingam_idx(&line, e, area), Err(expected));
    assert_eq!(simplify_visvalingamp(&line, e, area, anything_goes), Err(expected));
    // the tolerance is looked at first
    assert_eq!(
        simplify_rdp(&line, f64::NAN.to_bits(), distance),
        Err(SimplifyError::NonFiniteTolerance)
    );
}

#[test]
fn ends_are_always_retained() {
    for seed in 1..6 {
        let pairs = scattered(40, seed);
        let line = points(&pairs);
        for tolerance in [0.0_f64, 0.5_f64, 10.0_f64, 1.0e6_f64] {
            let e = tolerance.to_bits();
            let kept = simplify_rdp_idx(&line, e, distance).unwrap();
            assert_eq!((kept[0], kept[kept.len() - 1]), (0, 39));
            let out = simplify_rdp(&line, e, distance).unwrap();
            assert_eq!((out[0], out[out.len() - 1]), (line[0], line[39]));
            let kept = simplify_visvalingam_idx(&line, e, area).unwrap();
            assert_eq!((kept[0], kept[kept.len() - 1]), (0, 39));
            let out = simplify_visvalingam(&line, e, area).unwrap();
            assert_eq!((out[0], out[out.len() - 1]), (line[0], line[39]));
        }
    }
    // with a tolerance above every measure only the ends are left
    let line = points(&scattered(40, 9));
    assert_eq!(simplify_rdp_idx(&line, 1.0e6_f64.to_bits(), distance), Ok(vec![0, 39]));
    assert_eq!(simplify_visvalingam_idx(&line, 1.0e6_f64.to_bits(), area), Ok(vec![0, 39]));
}

#[test]
fn simplifying_twice_is_simplifying_once() {
    for seed in 1..6 {
        let line = points(&scattered(80, seed));
        for tolerance in [0.5_f64, 5.0_f64, 50.0_f64, 500.0_f64] {
            let e = tolerance.to_bits();
            let once = simplify_rdp(&line, e, distance).unwrap();
            assert_eq!(simplify_rdp(&once, e, distance), Ok(once.clone()));
            let once = simplify_visvalingam(&line, e, area).unwrap();
            assert_eq!(simplify_visvalingam(&once, e, area), Ok(once.clone()));
        }
    }
    let once = simplify_rdp(&points(&rdp_example()), 1.0_f64.to_bits(), distance).unwrap();
    assert_eq!(simplify_rdp_idx(&once, 1.0_f64.to_bits(), distance), Ok(vec![0, 1, 2, 3]));
    let once = simplify_visvalingam(&points(&vw_example()), 30.0_f64.to_bits(), area).unwrap();
    assert_eq!(simplify_visvalingam_idx(&once, 30.0_f64.to_bits(), area), Ok(vec![0, 1, 2]));
}

#[test]
fn greater_tolerance_retains_no_more() {
    let tolerances: [f64; 8] = [-1.0, 0.0, 0.01, 0.5, 2.0, 10.0, 100.0, 1.0e4];
    for seed in 1..6 {
        let line = points(&scattered(80, seed));
        let mut rdp_before = usize::MAX;
        let mut vw_before = usize::MAX;
        for tolerance in tolerances {
            let e = tolerance.to_bits();
            let rdp_now = simplify_rdp_idx(&line, e, distance).unwrap().len();
            let vw_now = simplify_visvalingam_idx(&line, e, area).unwrap().len();
            assert!(rdp_now <= rdp_before);
            assert!(vw_now <= vw_before);
            rdp_before = rdp_now;
            vw_before = vw_now;
        }
    }
    let line = points(&vw_example());
    let lengths: Vec<usize> = [1.0_f64, 1.5, 20.0, 29.0, 49.0, 49.5]
        .iter()
        .map(|t| simplify_visvalingam_idx(&line, t.to_bits(), area).unwrap().len())
        .collect();
    assert_eq!(lengths, vec![5, 4, 4, 3, 3, 2]);
}

#[test]
fn points_are_those_at_the_indices() {
    for seed in 1..6 {
        let line = points(&scattered(50, seed));
        for tolerance in [0.5_f64, 5.0_f64, 50.0_f64] {
            let e = tolerance.to_bits();
            let kept = simplify_rdp_idx(&line, e, distance).unwrap();
            let gathered: Vec<Point> = kept.iter().map(|i| line[*i]).collect();
            assert_eq!(simplify_rdp(&line, e, distance), Ok(gathered));
            let kept = simplify_visvalingam_idx(&line, e, area).unwrap();
            let gathered: Vec<Point> = kept.iter().map(|i| line[*i]).collect();
            assert_eq!(simplify_visvalingam(&line, e, area), Ok(gathered));
        }
    }
}

#[test]
fn negative_tolerance_retains_everything() {
    let line = points(&rdp_example());
    assert_eq!(simplify_rdp_idx(&line, (-1.0_f64).to_bits(), distance), Ok(vec![0, 1, 2, 3, 4]));
    assert_eq!(
        simplify_visvalingam_idx(&line, (-1.0_f64).to_bits(), area),
        Ok(vec![0, 1, 2, 3, 4])
    );
}

#[test]
fn zero_tolerance_removes_points_on_the_chord() {
    // position 1 lies on the chord from 0 to 2, which is what is left of the
    // stretch from 0 to 3 after it has been divided at 2
    let line = points(&[[0.0, 0.0], [1.0, 0.0], [2.0, 0.0], [3.0, 1.0], [4.0, 0.0]]);
    assert_eq!(simplify_rdp_idx(&line, 0.0_f64.to_bits(), distance), Ok(vec![0, 2, 3, 4]));
    assert_eq!(simplify_rdp_idx(&line, (-0.0_f64).to_bits(), distance), Ok(vec![0, 2, 3, 4]));
    assert_eq!(simplify_visvalingam_idx(&line, 0.0_f64.to_bits(), area), Ok(vec![0, 2, 3, 4]));
}

#[test]
fn of_equal_distances_the_last_divides() {
    // positions 1 and 2 are both 2 away from the chord; the line is divided
    // at 2, which leaves 1 at 4 / sqrt(13) = 1.109.. from the chord 0-2
    let line = points(&[[0.0, 0.0], [1.0, 2.0], [3.0, 2.0], [4.0, 0.0]]);
    assert_eq!(simplify_rdp_idx(&line, 1.2_f64.to_bits(), distance), Ok(vec![0, 2, 3]));
    assert_eq!(simplify_rdp_idx(&line, 1.1_f64.to_bits(), distance), Ok(vec![0, 1, 2, 3]));
    assert_eq!(simplify_rdp_idx(&line, 2.0_f64.to_bits(), distance), Ok(vec![0, 3]));
}

#[test]
fn of_equal_areas_the_first_goes_first() {
    // the triangles at 1 and 2 both have area 1; removing 1 first makes the
    // triangle at 2 grow to 2, above the tolerance
    let line = points(&[[0.0, 0.0], [1.0, 2.0], [2.0, 2.0], [3.0, 0.0]]);
    assert_eq!(simplify_visvalingam_idx(&line, 1.0_f64.to_bits(), area), Ok(vec![0, 2, 3]));
}

#[test]
fn measure_that_is_no_number_retains_the_point() {
    let line = points(&rdp_example());
    let undefined = |_a: Point, _b: Point, _c: Point| f64::NAN.to_bits();
    assert_eq!(simplify_rdp_idx(&line, 1.0e300_f64.to_bits(), undefined), Ok(vec![0, 1, 2, 3, 4]));
    assert_eq!(
        simplify_visvalingam_idx(&line, 1.0e300_f64.to_bits(), undefined),
        Ok(vec![0, 1, 2, 3, 4])
    );
}

#[test]
fn agrees_with_geo_on_scattered_lines() {
    for seed in 1..9 {
        let pairs = scattered(120, seed);
        let line = points(&pairs);
        let theirs: LineString<f64> = pairs.clone().into();
        for tolerance in [0.3_f64, 3.0_f64, 30.0_f64, 300.0_f64] {
            let e = tolerance.to_bits();
            assert_eq!(
                simplify_rdp_idx(&line, e, segment_distance),
                Ok(theirs.simplify_idx(tolerance))
            );
            assert_eq!(
                simplify_visvalingam_idx(&line, e, area),
                Ok(theirs.simplify_vw_idx(tolerance))
            );
        }
    }
}

fn grid(count: usize, seed: u64) -> Vec<[f64; 2]> {
    let mut state = seed;
    let mut next = move || {
        state = state.wrapping_mul(6364136223846793005).wrapping_add(1442695040888963407);
        ((state >> 33) % 5) as f64
    };
    (0..count).map(|_| [next(), next()]).collect()
}

fn eliminate_directly(line: &[Point], tolerance: f64, blocked: &dyn Fn(&[usize], usize) -> bool) -> Vec<usize> {
    let mut kept: Vec<usize> = (0..line.len()).collect();
    let mut barred: Vec<usize> = Vec::new();
    loop {
        let mut least: Option<(f64, usize)> = None;
        for k in 1..kept.len().saturating_sub(1) {
            if barred.contains(&kept[k]) {
                continue;
            }
            let a = f64::from_bits(area(line[kept[k - 1]], line[kept[k]], line[kept[k + 1]]));
            if least.map_or(true, |(b, _)| a < b) {
                least = Some((a, k));
            }
        }
        match least {
            Some((a, k)) if !(a > tolerance) => {
                if blocked(&kept, kept[k]) {
                    barred.push(kept[k]);
                } else {
                    barred.retain(|p| *p != kept[k - 1] && *p != kept[k + 1]);
                    kept.remove(k);
                }
            }
            _ => return kept,
        }
    }
}

fn reduce_directly(line: &[Point], tolerance: f64, s: usize, e: usize, kept: &mut Vec<usize>) {
    if e - s >= 2 {
        let mut best = s + 1;
        for i in s + 2..e {
            if f64::from_bits(distance(line[i], line[s], line[e]))
                >= f64::from_bits(distance(line[best], line[s], line[e]))
            {
                best = i;
            }
        }
        if f64::from_bits(distance(line[best], line[s], line[e])) > tolerance {
            reduce_directly(line, tolerance, s, best, kept);
            reduce_directly(line, tolerance, best, e, kept);
            return;
        }
    }
    kept.push(e);
}

#[test]
fn retains_what_the_definition_retains_where_measures_tie() {
    for seed in 1..40 {
        let line = points(&grid(30, seed));
        for tolerance in [0.0_f64, 0.5, 1.0, 2.0, 4.0] {
            let e = tolerance.to_bits();
            assert_eq!(
                simplify_visvalingam_idx(&line, e, area),
                Ok(eliminate_directly(&line, tolerance, &|_, _| false))
            );
            let mut expected = vec![0];
            reduce_directly(&line, tolerance, 0, line.len() - 1, &mut expected);
            assert_eq!(simplify_rdp_idx(&line, e, distance), Ok(expected));
        }
    }
}

#[test]
fn retains_what_the_definition_retains_under_a_condition() {
    for seed in 1..40 {
        let line = points(&grid(30, seed));
        // a removal is refused while more than twenty points are retained and
        // the position is odd, or when the neighbour on the left is the start
        let refuses = |kept: &[usize], current: usize| {
            (kept.len() > 20 && current % 2 == 1) || kept[kept.iter().position(|p| *p == current).unwrap() - 1] == 0
        };
        let permits = |table: &AdjacencyTable, current: usize| !refuses(&table.survivors(), current);
        for tolerance in [0.5_f64, 1.0, 2.0, 4.0, 100.0] {
            assert_eq!(
                simplify_visvalingamp_idx(&line, tolerance.to_bits(), area, permits),
                Ok(eliminate_directly(&line, tolerance, &refuses))
            );
        }
    }
}
