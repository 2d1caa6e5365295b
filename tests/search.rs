use ucs_grid::search::{find_start, ucs, Search, SearchError, Step};
use ucs_grid::trans_map::{CellType, MapCell, Point, TransMap};

fn p(x: usize, y: usize) -> Point {
    Point::new(x, y)
}

fn cost(map: &TransMap, route: &[Point]) -> u64 {
    route[1..].iter().map(|q| map.at(*q).unwrap().price as u64).sum()
}

#[test]
fn diagonal_route_is_cheapest() {
    let map = TransMap::from_file("S0 1  1\n1  1  1\n1  1  F0\n");
    let route = ucs(&map).unwrap().unwrap();
    assert_eq!(route, vec![p(0, 0), p(1, 1), p(2, 2)]);
    assert_eq!(cost(&map, &route), 1);
}

#[test]
fn no_start_is_an_error() {
    let map = TransMap::from_file("1 1\n1 F0\n");
    assert_eq!(ucs(&map), Err(SearchError::NoStart));
    assert_eq!(find_start(&map), None);
}

#[test]
fn unreachable_finish_gives_no_route() {
    let map = TransMap::from_file("S0 x x\nx x x\nx x F0\n");
    assert_eq!(ucs(&map), Ok(None));
}

#[test]
fn no_finish_gives_no_route() {
    let map = TransMap::from_file("S0 1\n1 1\n");
    assert_eq!(ucs(&map), Ok(None));
}

#[test]
fn equal_costs_expand_in_discovery_order() {
    let map = TransMap::from_file("S0 1\n1 1\n");
    let start = find_start(&map).unwrap();
    let mut s = Search::new(&map, start);
    assert_eq!(s.step(&map), Step::Continue);
    let order: Vec<Point> = s.open.iter().map(|t| t.to).collect();
    assert_eq!(order, vec![p(1, 0), p(0, 1), p(1, 1)]);
    assert_eq!(s.step(&map), Step::Continue);
    assert_eq!(s.closed[1].to, p(1, 0));
    assert_eq!(s.step(&map), Step::Continue);
    assert_eq!(s.closed[2].to, p(0, 1));
}

#[test]
fn open_and_closed_hold_each_point_once() {
    let map = TransMap::from_file("S0 1 1 1\n1 5 1 1\n1 1 1 1\n");
    let mut s = Search::new(&map, find_start(&map).unwrap());
    loop {
        for set in [&s.open, &s.closed] {
            for (i, a) in set.iter().enumerate() {
                for b in &set[i + 1..] {
                    assert_ne!(a.to, b.to);
                }
            }
        }
        if s.step(&map) != Step::Continue {
            break;
        }
    }
    assert_eq!(s.closed.len(), 12);
}

#[test]
fn cheaper_detour_is_taken() {
    let map = TransMap::from_file("S0 9 F0\n1 9 9\n9 1 9\n");
    let route = ucs(&map).unwrap().unwrap();
    assert_eq!(route, vec![p(0, 0), p(1, 0), p(2, 0)]);
    assert_eq!(cost(&map, &route), 9);
    let map = TransMap::from_file("S0 9 9 F0\n1 9 9 9\n9 1 1 9\n");
    let route = ucs(&map).unwrap().unwrap();
    assert_eq!(route, vec![p(0, 0), p(0, 1), p(1, 2), p(2, 1), p(3, 0)]);
    assert_eq!(cost(&map, &route), 11);
}

#[test]
fn route_steps_are_neighbours() {
    let map = TransMap::from_file("S3 2 7 1\n4 x 1 8\n2 6 x 1\n9 1 3 F2\n");
    let route = ucs(&map).unwrap().unwrap();
    assert_eq!(route[0], p(0, 0));
    assert_eq!(*route.last().unwrap(), p(3, 3));
    for w in route.windows(2) {
        let dx = w[1].x as i64 - w[0].x as i64;
        let dy = w[1].y as i64 - w[0].y as i64;
        assert!(dx.abs() <= 1 && dy.abs() <= 1 && (dx, dy) != (0, 0));
    }
    assert_eq!(cost(&map, &route), 6);
}

#[test]
fn nearest_of_two_finishes() {
    let map = TransMap::from_file("F5 1 S0 1 1 F0\n");
    let route = ucs(&map).unwrap().unwrap();
    assert_eq!(route, vec![p(2, 0), p(3, 0), p(4, 0), p(5, 0)]);
    let map = TransMap::from_file("F0 1 S0 1 1 F0\n");
    let route = ucs(&map).unwrap().unwrap();
    assert_eq!(route, vec![p(2, 0), p(1, 0), p(0, 0)]);
}

#[test]
fn first_start_is_used() {
    let map = TransMap::from_file("1 1 1\n1 S0 S0\nF0 1 1\n");
    assert_eq!(find_start(&map), Some(p(1, 1)));
    assert_eq!(ucs(&map).unwrap().unwrap(), vec![p(1, 1), p(0, 2)]);
}

#[test]
fn start_next_to_finish() {
    let map = TransMap::from_file("S7 F3\n");
    assert_eq!(ucs(&map).unwrap().unwrap(), vec![p(0, 0), p(1, 0)]);
    let map = TransMap::from_file("S0\n");
    assert_eq!(ucs(&map), Ok(None));
    let map = TransMap::from_file("");
    assert_eq!(ucs(&map), Err(SearchError::NoStart));
}

#[test]
fn relaxation_replaces_a_dearer_entry() {
    let map = TransMap::from_file("S0 5 0\n0 x 0\n");
    let mut s = Search::new(&map, find_start(&map).unwrap());
    assert_eq!(s.step(&map), Step::Continue);
    assert_eq!(s.step(&map), Step::Continue);
    assert_eq!(s.closed[1].to, p(0, 1));
    let route = ucs(&map);
    assert_eq!(route, Ok(None));
    let _ = MapCell { typ: CellType::Normal, price: 0 };
}
