use rdp::adjacency::AdjacencyTable;
use rdp::point::first_non_finite;
use rdp::queue::{Candidate, CandidateQueue};
use rdp::select::{every_position, select};
use rdp::{pairs_from_points, points_from_pairs, Point};

fn pairs(values: &[[f64; 2]]) -> Vec<[u64; 2]> {
    values.iter().map(|pair| [pair[0].to_bits(), pair[1].to_bits()]).collect()
}

fn candidate(area: f64, current: usize) -> Candidate {
    Candidate { area: area.to_bits(), current, left: current - 1, right: current + 1 }
}

#[test]
fn test_linestring_to_array() {
    let line = points_from_pairs(&pairs(&[[1.0, 2.0], [3.0, 4.0]]));
    assert_eq!(
        line,
        vec![
            Point { x: 1.0_f64.to_bits(), y: 2.0_f64.to_bits() },
            Point { x: 3.0_f64.to_bits(), y: 4.0_f64.to_bits() },
        ]
    );
    assert_eq!(pairs_from_points(&line), pairs(&[[1.0, 2.0], [3.0, 4.0]]));
}

#[test]
fn test_array_conversion() {
    let original = vec![
        [0.0, 0.0],
        [5.0, 4.0],
        [11.0, 5.5],
        [17.3, 3.2],
        [27.8, 0.1],
    ];
    let line = points_from_pairs(&pairs(&original));
    let converted = pairs_from_points(&line);
    assert_eq!(converted, pairs(&original));
    assert_eq!(points_from_pairs(&converted), line);
}

#[test]
fn empty_buffer_has_no_points() {
    assert_eq!(points_from_pairs(&Vec::new()), Vec::<Point>::new());
    assert_eq!(pairs_from_points(&Vec::new()), Vec::<[u64; 2]>::new());
}

#[test]
fn select_gathers_in_the_order_of_the_positions() {
    let line = points_from_pairs(&pairs(&[[0.0, 0.0], [1.0, 1.0], [2.0, 2.0]]));
    assert_eq!(select(&line, &vec![2, 0, 0]), Some(vec![line[2], line[0], line[0]]));
    assert_eq!(select(&line, &vec![]), Some(vec![]));
    assert_eq!(select(&line, &vec![0, 3]), None);
    assert_eq!(select(&line, &every_position(3)), Some(line.clone()));
    assert_eq!(every_position(0), Vec::<usize>::new());
    assert_eq!(every_position(4), vec![0, 1, 2, 3]);
}

#[test]
fn first_point_that_is_not_finite_is_found() {
    let line = points_from_pairs(&pairs(&[[0.0, 0.0], [1.0, f64::NAN], [f64::INFINITY, 2.0]]));
    assert_eq!(first_non_finite(&line), Some(1));
    assert!(line[0].is_finite());
    assert!(!line[1].is_finite());
    assert!(!line[2].is_finite());
    assert_eq!(first_non_finite(&line[..1].to_vec()), None);
    assert_eq!(first_non_finite(&Vec::new()), None);
}

#[test]
fn queue_pops_by_area_then_by_position() {
    let mut queue = CandidateQueue::new();
    assert_eq!(queue.len(), 0);
    assert_eq!(queue.pop(), None);
    let pushed = [
        candidate(3.0, 5),
        candidate(1.0, 9),
        candidate(f64::NAN, 1),
        candidate(1.0, 2),
        candidate(0.0, 7),
        candidate(f64::INFINITY, 3),
        candidate(-0.0, 4),
        candidate(1.0, 2),
        candidate(2.5, 6),
    ];
    for c in pushed.iter() {
        queue.push(*c);
    }
    assert_eq!(queue.len(), 9);
    let mut popped = Vec::new();
    while let Some(c) = queue.pop() {
        popped.push((f64::from_bits(c.area), c.current));
    }
    assert_eq!(queue.len(), 0);
    assert_eq!(popped.len(), 9);
    assert_eq!(
        popped[..8],
        [(-0.0, 4), (0.0, 7), (1.0, 2), (1.0, 2), (1.0, 9), (2.5, 6), (3.0, 5), (f64::INFINITY, 3)]
    );
    assert!(popped[8].0.is_nan());
    assert_eq!(popped[8].1, 1);
}

#[test]
fn queue_orders_many_candidates() {
    let mut queue = CandidateQueue::new();
    let mut state: u64 = 5;
    let mut expected = Vec::new();
    for _ in 0..500 {
        state = state.wrapping_mul(6364136223846793005).wrapping_add(1442695040888963407);
        let area = ((state >> 40) % 50) as f64 / 4.0;
        let current = 1 + ((state >> 20) % 40) as usize;
        queue.push(candidate(area, current));
        expected.push((area, current));
    }
    expected.sort_by(|a, b| a.partial_cmp(b).unwrap());
    let mut popped = Vec::new();
    while let Some(c) = queue.pop() {
        popped.push((f64::from_bits(c.area), c.current));
    }
    assert_eq!(popped, expected);
}

#[test]
fn candidates_compare_by_area_then_by_position() {
    assert!(candidate(1.0, 9).precedes(&candidate(2.0, 1)));
    assert!(!candidate(2.0, 1).precedes(&candidate(1.0, 9)));
    assert!(candidate(1.0, 2).precedes(&candidate(1.0, 3)));
    assert!(!candidate(1.0, 3).precedes(&candidate(1.0, 2)));
    assert!(candidate(1.0, 3).precedes(&candidate(1.0, 3)));
    assert!(candidate(-0.0, 3).precedes(&candidate(0.0, 3)));
    assert!(candidate(0.0, 3).precedes(&candidate(-0.0, 3)));
    assert!(candidate(f64::INFINITY, 3).precedes(&candidate(f64::NAN, 1)));
}

#[test]
fn fresh_table_links_each_position_to_the_next() {
    let table = AdjacencyTable::new(4);
    assert_eq!(table.len(), 4);
    assert_eq!(table.survivors(), vec![0, 1, 2, 3]);
    assert_eq!((table.left(0), table.right(0)), (None, Some(1)));
    assert_eq!((table.left(2), table.right(2)), (Some(1), Some(3)));
    assert_eq!((table.left(3), table.right(3)), (Some(2), None));
    assert_eq!((table.left(4), table.right(4)), (None, None));
    assert!(!table.is_removed(0));
    assert!(table.is_removed(4));
    assert!(table.links(1, 0, 2));
    assert!(!table.links(1, 0, 3));
    assert!(!table.links(0, 0, 1));
    assert_eq!(AdjacencyTable::new(0).survivors(), Vec::<usize>::new());
    assert_eq!(AdjacencyTable::new(1).survivors(), vec![0]);
}

#[test]
fn removal_splices_the_neighbours_together() {
    let mut table = AdjacencyTable::new(6);
    assert!(table.remove(2));
    assert_eq!(table.survivors(), vec![0, 1, 3, 4, 5]);
    assert!(table.is_removed(2));
    assert_eq!((table.left(2), table.right(2)), (None, None));
    assert_eq!((table.left(1), table.right(1)), (Some(0), Some(3)));
    assert_eq!((table.left(3), table.right(3)), (Some(1), Some(4)));
    assert!(table.links(3, 1, 4));
    assert!(!table.links(3, 2, 4));
    assert!(table.remove(3));
    assert_eq!(table.survivors(), vec![0, 1, 4, 5]);
    assert!(table.links(1, 0, 4));
    assert!(table.links(4, 1, 5));
    assert_eq!(table.len(), 6);
}

#[test]
fn ends_and_removed_positions_are_not_removed() {
    let mut table = AdjacencyTable::new(4);
    assert!(!table.remove(0));
    assert!(!table.remove(3));
    assert!(!table.remove(4));
    assert!(table.remove(1));
    assert!(!table.remove(1));
    assert!(table.remove(2));
    assert!(!table.remove(0));
    assert!(!table.remove(3));
    assert_eq!(table.survivors(), vec![0, 3]);
    assert_eq!((table.left(3), table.right(0)), (Some(0), Some(3)));
    let mut pair = AdjacencyTable::new(2);
    assert!(!pair.remove(0));
    assert!(!pair.remove(1));
    assert_eq!(pair.survivors(), vec![0, 1]);
}
