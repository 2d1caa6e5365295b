use ucs_grid::search::{ucs, Search, Step};
use ucs_grid::trans_map::{cell_of_token, parse_price_at, CellType, MapCell, Point, TransMap};

fn cell(typ: CellType, price: u32) -> Option<MapCell> {
    Some(MapCell { typ, price })
}

fn token(s: &str) -> Option<MapCell> {
    cell_of_token(&s.chars().collect())
}

#[test]
fn tokens_become_cells() {
    assert_eq!(token("S0"), cell(CellType::Start, 0));
    assert_eq!(token("F12"), cell(CellType::Finish, 12));
    assert_eq!(token("7"), cell(CellType::Normal, 7));
    assert_eq!(token("S+5"), cell(CellType::Start, 5));
    assert_eq!(token("4294967295"), cell(CellType::Normal, 4294967295));
    assert_eq!(token("4294967296"), None);
    assert_eq!(token("99999999999999999999"), None);
    assert_eq!(token("S"), None);
    assert_eq!(token("F+"), None);
    assert_eq!(token("12a"), None);
    assert_eq!(token("+5"), None);
    assert_eq!(token("x"), None);
    assert_eq!(token("S-1"), None);
    assert_eq!(token("s1"), None);
}

#[test]
fn prices_read_from_an_offset() {
    let v: Vec<char> = "S042".chars().collect();
    assert_eq!(parse_price_at(&v, 1), Some(42));
    assert_eq!(parse_price_at(&v, 4), None);
    assert_eq!(parse_price_at(&v, 0), None);
}

#[test]
fn ragged_rows_are_padded_and_blank_lines_skipped() {
    let map = TransMap::from_file("S0 1 2\n\n   \n3\r\n4 F5\n");
    let cells: Vec<(Point, Option<MapCell>)> = map.iter();
    assert_eq!(cells.len(), 9);
    assert_eq!(cells[0], (Point::new(0, 0), cell(CellType::Start, 0)));
    assert_eq!(cells[3], (Point::new(0, 1), cell(CellType::Normal, 3)));
    assert_eq!(cells[4], (Point::new(1, 1), None));
    assert_eq!(cells[5], (Point::new(2, 1), None));
    assert_eq!(cells[7], (Point::new(1, 2), cell(CellType::Finish, 5)));
    assert_eq!(cells[8], (Point::new(2, 2), None));
}

#[test]
fn malformed_tokens_are_absent_cells() {
    let map = TransMap::from_file("S0 ab 3\nF1 9x +2\n");
    assert_eq!(map.at(Point::new(1, 0)), None);
    assert_eq!(map.at(Point::new(2, 0)), cell(CellType::Normal, 3));
    assert_eq!(map.at(Point::new(1, 1)), None);
    assert_eq!(map.at(Point::new(2, 1)), None);
    assert_eq!(map.at(Point::new(0, 1)), cell(CellType::Finish, 1));
}

#[test]
fn unicode_white_space_separates_tokens() {
    let map = TransMap::from_file("S0\u{3000}1\t2\u{a0}F3");
    assert_eq!(map.at(Point::new(3, 0)), cell(CellType::Finish, 3));
    assert_eq!(map.iter().len(), 4);
}

#[test]
fn last_line_without_line_feed_counts() {
    let map = TransMap::from_file("S0 1\n1 F1");
    assert_eq!(map.at(Point::new(1, 1)), cell(CellType::Finish, 1));
    assert_eq!(ucs(&map).unwrap().unwrap().len(), 2);
}

#[test]
fn lookup_outside_is_absent_and_repeatable() {
    let map = TransMap::from_file("S0 1\n2 F3\n");
    for q in [Point::new(2, 0), Point::new(0, 2), Point::new(usize::MAX, usize::MAX)] {
        assert_eq!(map.at(q), None);
    }
    let q = Point::new(1, 1);
    assert_eq!(map.at(q), map.at(q));
    assert_eq!(map.at(q), cell(CellType::Finish, 3));
}

#[test]
fn surround_order_and_edges() {
    let c = Point::new(5, 5);
    assert_eq!(
        c.surround(),
        vec![
            Point::new(4, 4),
            Point::new(5, 4),
            Point::new(6, 4),
            Point::new(4, 5),
            Point::new(6, 5),
            Point::new(4, 6),
            Point::new(5, 6),
            Point::new(6, 6),
        ]
    );
    assert_eq!(
        Point::new(0, 0).surround(),
        vec![Point::new(1, 0), Point::new(0, 1), Point::new(1, 1)]
    );
    assert_eq!(
        Point::new(usize::MAX, 0).surround(),
        vec![Point::new(usize::MAX - 1, 0), Point::new(usize::MAX - 1, 1), Point::new(usize::MAX, 1)]
    );
}

#[test]
fn iter_walks_rows_in_order() {
    let map = TransMap::from_file("1 2\n3 4\n5 6\n");
    let pts: Vec<Point> = map.iter().into_iter().map(|(q, _)| q).collect();
    assert_eq!(pts, vec![
        Point::new(0, 0),
        Point::new(1, 0),
        Point::new(0, 1),
        Point::new(1, 1),
        Point::new(0, 2),
        Point::new(1, 2),
    ]);
    let prices: Vec<u32> = map.iter().into_iter().map(|(_, c)| c.unwrap().price).collect();
    assert_eq!(prices, vec![1, 2, 3, 4, 5, 6]);
}

#[test]
fn exhausted_search_reports_it() {
    let map = TransMap::from_file("S0\n");
    let mut s = Search::new(&map, Point::new(0, 0));
    assert_eq!(s.step(&map), Step::Continue);
    assert_eq!(s.step(&map), Step::Exhausted);
}

#[test]
fn point_from_pair() {
    assert_eq!(Point::from((3, 4)), Point::new(3, 4));
}
