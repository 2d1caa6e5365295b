use vstd::prelude::*;

verus! {

/// What a cell of the map is.
#[derive(Copy, Clone, Debug, PartialEq, Eq, Structural)]
pub enum CellType {
    Normal,
    Start,
    Finish,
}

/// A passable cell: its kind and the cost charged on entering it.
#[derive(Copy, Clone, Debug, PartialEq, Eq, Structural)]
pub struct MapCell {
    pub typ: CellType,
    pub price: u32,
}

/// A rectangular table of optional cells, stored row by row.
pub struct TransMap {
    width: usize,
    height: usize,
    cells: Vec<Option<MapCell>>,
}

/// A position on the map: column `x`, row `y`.
#[derive(Copy, Clone, Debug, PartialEq, Eq, Structural)]
pub struct Point {
    pub x: usize,
    pub y: usize,
}

/// The two points are distinct and differ by at most one in each coordinate.
pub open spec fn is_neighbor(a: Point, b: Point) -> bool {
    &&& a != b
    &&& -1 <= a.x - b.x <= 1
    &&& -1 <= a.y - b.y <= 1
}

/// The eight offsets around a point, in the order north-west, north, north-east,
/// west, east, south-west, south, south-east.
pub open spec fn offsets() -> Seq<(int, int)> {
    seq![(-1, -1), (0, -1), (1, -1), (-1, 0), (1, 0), (-1, 1), (0, 1), (1, 1)]
}

/// The point at offset `d` from `p`, where both of its coordinates fit in a `usize`.
pub open spec fn shifted(p: Point, d: (int, int)) -> Option<Point> {
    let x = p.x + d.0;
    let y = p.y + d.1;
    if 0 <= x <= usize::MAX && 0 <= y <= usize::MAX {
        Some(Point { x: x as usize, y: y as usize })
    } else {
        None
    }
}

/// The neighbours of `p` among the offsets `ds`, in order, leaving out those
/// with a coordinate that does not fit in a `usize`.
pub open spec fn shifted_all(p: Point, ds: Seq<(int, int)>) -> Seq<Point>
    decreases ds.len(),
{
    if ds.len() == 0 {
        Seq::empty()
    } else {
        let rest = shifted_all(p, ds.drop_last());
        match shifted(p, ds.last()) {
            Some(q) => rest.push(q),
            None => rest,
        }
    }
}

/// The Moore neighbours of `p` in their fixed order.
pub open spec fn surround_of(p: Point) -> Seq<Point> {
    shifted_all(p, offsets())
}

impl Point {
    pub fn new(x: usize, y: usize) -> (r: Point)
        ensures
            r.x == x,
            r.y == y,
    {
        Point { x, y }
    }

    /// The Moore neighbours of this point (north-west, north, north-east, west,
    /// east, south-west, south, south-east), leaving out each one with a
    /// coordinate below zero or above `usize::MAX`.
    pub fn surround(&self) -> (r: Vec<Point>)
        ensures
            r@ == surround_of(*self),
    {
        let x = self.x;
        let y = self.y;
        let mut r: Vec<Point> = Vec::new();
        proof {
            reveal_with_fuel(shifted_all, 9);
        }
        if x > 0 && y > 0 {
            r.push(Point::new(x - 1, y - 1));
        }
        if y > 0 {
            r.push(Point::new(x, y - 1));
        }
        if x < usize::MAX && y > 0 {
            r.push(Point::new(x + 1, y - 1));
        }
        if x > 0 {
            r.push(Point::new(x - 1, y));
        }
        if x < usize::MAX {
            r.push(Point::new(x + 1, y));
        }
        if x > 0 && y < usize::MAX {
            r.push(Point::new(x - 1, y + 1));
        }
        if y < usize::MAX {
            r.push(Point::new(x, y + 1));
        }
        if x < usize::MAX && y < usize::MAX {
            r.push(Point::new(x + 1, y + 1));
        }
        r
    }
}

impl From<(usize, usize)> for Point {
    fn from(v: (usize, usize)) -> (r: Point) {
        Point { x: v.0, y: v.1 }
    }
}

impl vstd::std_specs::convert::FromSpecImpl<(usize, usize)> for Point {
    open spec fn obeys_from_spec() -> bool {
        true
    }

    open spec fn from_spec(v: (usize, usize)) -> Point {
        Point { x: v.0, y: v.1 }
    }
}

proof fn lemma_shifted_all(p: Point, ds: Seq<(int, int)>)
    ensures
        forall|q: Point|
            shifted_all(p, ds).contains(q) <==> exists|k: int|
                0 <= k < ds.len() && shifted(p, ds[k]) == Some(q),
        ds.no_duplicates() ==> shifted_all(p, ds).no_duplicates(),
    decreases ds.len(),
{
    if ds.len() > 0 {
        let init = ds.drop_last();
        lemma_shifted_all(p, init);
        let rest = shifted_all(p, init);
        assert forall|q: Point|
            shifted_all(p, ds).contains(q) <==> exists|k: int|
                0 <= k < ds.len() && shifted(p, ds[k]) == Some(q) by {
            if shifted_all(p, ds).contains(q) {
                if rest.contains(q) {
                    let k = choose|k: int| 0 <= k < init.len() && shifted(p, init[k]) == Some(q);
                    assert(ds[k] == init[k]);
                } else {
                    assert(shifted(p, ds[ds.len() - 1]) == Some(q));
                }
            }
            if exists|k: int| 0 <= k < ds.len() && shifted(p, ds[k]) == Some(q) {
                let k = choose|k: int| 0 <= k < ds.len() && shifted(p, ds[k]) == Some(q);
                if k < ds.len() - 1 {
                    assert(init[k] == ds[k]);
                    assert(rest.contains(q));
                    let j = choose|j: int| 0 <= j < rest.len() && rest[j] == q;
                    match shifted(p, ds.last()) {
                        Some(r) => {
                            assert(shifted_all(p, ds)[j] == q);
                        },
                        None => {},
                    }
                } else {
                    match shifted(p, ds.last()) {
                        Some(r) => {
                            assert(shifted_all(p, ds)[rest.len() as int] == q);
                        },
                        None => {},
                    }
                }
            }
        }
        if ds.no_duplicates() {
            assert(init.no_duplicates());
            match shifted(p, ds.last()) {
                Some(r) => {
                    if rest.contains(r) {
                        let k = choose|k: int| 0 <= k < init.len() && shifted(p, init[k]) == Some(r);
                        assert(ds[k] == ds[ds.len() - 1]);
                    }
                },
                None => {},
            }
        }
    }
}

/// Every point of `surround_of(p)` is a neighbour of `p`, every neighbour of
/// `p` is in it, and none is in it twice.
pub proof fn lemma_surround(p: Point)
    ensures
        forall|q: Point| surround_of(p).contains(q) <==> is_neighbor(p, q),
        surround_of(p).no_duplicates(),
{
    let ds = offsets();
    lemma_shifted_all(p, ds);
    assert(ds.no_duplicates());
    assert forall|q: Point| surround_of(p).contains(q) <==> is_neighbor(p, q) by {
        if is_neighbor(p, q) {
            let dx = q.x - p.x;
            let dy = q.y - p.y;
            let k: int = if dy == -1 {
                dx + 1
            } else if dy == 0 {
                if dx == -1 { 3 } else { 4 }
            } else {
                dx + 6
            };
            assert(shifted(p, ds[k]) == Some(q));
        }
        if surround_of(p).contains(q) {
            let k = choose|k: int| 0 <= k < ds.len() && shifted(p, ds[k]) == Some(q);
            assert(ds[k] != (0int, 0int));
        }
    }
}

impl TransMap {
    #[verifier::type_invariant]
    spec fn shape_ok(self) -> bool {
        self.cells@.len() == self.width * self.height
    }

    pub closed spec fn width(&self) -> nat {
        self.width as nat
    }

    pub closed spec fn height(&self) -> nat {
        self.height as nat
    }

    /// The cells, row by row.
    pub closed spec fn cells(&self) -> Seq<Option<MapCell>> {
        self.cells@
    }

    /// The cell at `p`, or none where `p` is outside the rectangle.
    pub open spec fn cell_at(&self, p: Point) -> Option<MapCell> {
        if p.x < self.width() && p.y < self.height() {
            self.cells()[p.y * self.width() + p.x]
        } else {
            None
        }
    }

    /// The point that the `i`-th stored cell stands at.
    pub open spec fn point_of(&self, i: int) -> Point {
        Point { x: (i % self.width() as int) as usize, y: (i / self.width() as int) as usize }
    }

    /// Every position with its cell, row by row.
    pub fn iter(&self) -> (r: Vec<(Point, Option<MapCell>)>)
        ensures
            r@.len() == self.cells().len(),
            self.cells().len() == self.width() * self.height(),
            self.width() <= usize::MAX,
            self.height() <= usize::MAX,
            forall|i: int|
                0 <= i < r@.len() ==> r@[i] == (self.point_of(i), #[trigger] self.cells()[i]),
    {
        proof {
            use_type_invariant(self);
        }
        let mut r: Vec<(Point, Option<MapCell>)> = Vec::new();
        let n = self.cells.len();
        let mut i: usize = 0;
        while i < n
            invariant
                n == self.cells@.len(),
                n == self.width * self.height,
                i <= n,
                r@.len() == i,
                forall|j: int| 0 <= j < i ==> r@[j] == (self.point_of(j), self.cells()[j]),
            decreases n - i,
        {
            assert(self.width > 0) by (nonlinear_arith)
                requires
                    i < n,
                    n == self.width * self.height,
            ;
            proof {
                assert(i / self.width <= i) by (nonlinear_arith)
                    requires
                        self.width > 0,
                ;
            }
            let p = Point::new(i % self.width, i / self.width);
            r.push((p, self.cells[i]));
            i = i + 1;
        }
        r
    }

    /// The cell at `p`: none where `p` lies outside the rectangle or no cell
    /// stands there.
    pub fn at(&self, p: Point) -> (r: Option<MapCell>)
        ensures
            r == self.cell_at(p),
            p.x >= self.width() || p.y >= self.height() ==> r is None,
            self.cells().len() == self.width() * self.height(),
    {
        proof {
            use_type_invariant(self);
        }
        if p.x >= self.width || p.y >= self.height {
            None
        } else {
            let n = self.cells.len();
            proof {
                assert(p.y * self.width + p.x < n) by (nonlinear_arith)
                    requires
                        p.x < self.width,
                        p.y < self.height,
                        n == self.width * self.height,
                ;
            }
            self.cells[p.y * self.width + p.x]
        }
    }
}

/// `c` is white space as Unicode defines it.
pub open spec fn is_space(c: char) -> bool {
    let u = c as u32;
    ||| u == ' ' as u32
    ||| ('\t' as u32 <= u && u <= '\r' as u32)
    ||| u == '\u{85}' as u32
    ||| u == '\u{a0}' as u32
    ||| u == '\u{1680}' as u32
    ||| ('\u{2000}' as u32 <= u && u <= '\u{200a}' as u32)
    ||| u == '\u{2028}' as u32
    ||| u == '\u{2029}' as u32
    ||| u == '\u{202f}' as u32
    ||| u == '\u{205f}' as u32
    ||| u == '\u{3000}' as u32
}

pub open spec fn is_digit(c: char) -> bool {
    '0' as u32 <= c as u32 && c as u32 <= '9' as u32
}

pub open spec fn digit_value(c: char) -> int {
    c as u32 - '0' as u32
}

/// The value of a string of decimal digits.
pub open spec fn digits_value(s: Seq<char>) -> int
    decreases s.len(),
{
    if s.len() == 0 {
        0
    } else {
        digits_value(s.drop_last()) * 10 + digit_value(s.last())
    }
}

/// What follows an optional leading `+`.
pub open spec fn price_digits(s: Seq<char>) -> Seq<char> {
    if s.len() > 0 && s[0] == '+' {
        s.drop_first()
    } else {
        s
    }
}

pub open spec fn all_digits(d: Seq<char>) -> bool {
    forall|i: int| 0 <= i < d.len() ==> is_digit(#[trigger] d[i])
}

/// A cost as written in a map: an optional `+`, then one or more decimal
/// digits, with a value that fits in a `u32`.
pub open spec fn parse_price(s: Seq<char>) -> Option<u32> {
    let d = price_digits(s);
    if d.len() > 0 && all_digits(d) && digits_value(d) <= u32::MAX {
        Some(digits_value(d) as u32)
    } else {
        None
    }
}

pub open spec fn with_type(typ: CellType, price: Option<u32>) -> Option<MapCell> {
    match price {
        Some(p) => Some(MapCell { typ, price: p }),
        None => None,
    }
}

/// The cell a token of a map stands for: `S` or `F` and a cost for a start or
/// a finish cell, a cost alone for a normal cell; none for anything else.
pub open spec fn cell_of(tok: Seq<char>) -> Option<MapCell> {
    if tok.len() == 0 {
        None
    } else if tok[0] == 'S' {
        with_type(CellType::Start, parse_price(tok.drop_first()))
    } else if tok[0] == 'F' {
        with_type(CellType::Finish, parse_price(tok.drop_first()))
    } else if is_digit(tok[0]) {
        with_type(CellType::Normal, parse_price(tok))
    } else {
        None
    }
}

/// Ends the token `tok`: a non-empty one adds its cell to the row.
pub open spec fn end_token(row: Seq<Option<MapCell>>, tok: Seq<char>) -> Seq<Option<MapCell>> {
    if tok.len() == 0 {
        row
    } else {
        row.push(cell_of(tok))
    }
}

/// Ends the row `row`: a non-empty one is added to the table.
pub open spec fn end_row(
    table: Seq<Seq<Option<MapCell>>>,
    row: Seq<Option<MapCell>>,
) -> Seq<Seq<Option<MapCell>>> {
    if row.len() == 0 {
        table
    } else {
        table.push(row)
    }
}

/// The rows read so far, the cells of the current row, and the characters of
/// the current token, after reading `s`: a line feed ends a row, other white
/// space ends a token.
pub open spec fn scan(s: Seq<char>) -> (Seq<Seq<Option<MapCell>>>, Seq<Option<MapCell>>, Seq<char>)
    decreases s.len(),
{
    if s.len() == 0 {
        (Seq::empty(), Seq::empty(), Seq::empty())
    } else {
        let (table, row, tok) = scan(s.drop_last());
        let c = s.last();
        if c == '\n' {
            (end_row(table, end_token(row, tok)), Seq::empty(), Seq::empty())
        } else if is_space(c) {
            (table, end_token(row, tok), Seq::empty())
        } else {
            (table, row, tok.push(c))
        }
    }
}

/// The non-empty rows of a map text, each the cells of its tokens.
pub open spec fn rows_of(s: Seq<char>) -> Seq<Seq<Option<MapCell>>> {
    let (table, row, tok) = scan(s);
    end_row(table, end_token(row, tok))
}

/// The length of the longest row.
pub open spec fn max_len(rows: Seq<Seq<Option<MapCell>>>) -> nat
    decreases rows.len(),
{
    if rows.len() == 0 {
        0
    } else {
        let m = max_len(rows.drop_last());
        if rows.last().len() > m {
            rows.last().len()
        } else {
            m
        }
    }
}

/// The rows one after the other, each filled up with absent cells to `w`.
pub open spec fn padded(rows: Seq<Seq<Option<MapCell>>>, w: nat) -> Seq<Option<MapCell>>
    decreases rows.len(),
{
    if rows.len() == 0 {
        Seq::empty()
    } else {
        padded(rows.drop_last(), w) + rows.last() + Seq::new(
            (w - rows.last().len()) as nat,
            |i: int| None,
        )
    }
}

proof fn lemma_max_len(rows: Seq<Seq<Option<MapCell>>>)
    ensures
        forall|i: int| 0 <= i < rows.len() ==> (#[trigger] rows[i]).len() <= max_len(rows),
    decreases rows.len(),
{
    if rows.len() > 0 {
        lemma_max_len(rows.drop_last());
        assert forall|i: int| 0 <= i < rows.len() implies (#[trigger] rows[i]).len() <= max_len(rows) by {
            if i < rows.len() - 1 {
                assert(rows.drop_last()[i] == rows[i]);
            }
        }
    }
}

proof fn lemma_padded_len(rows: Seq<Seq<Option<MapCell>>>, w: nat)
    requires
        forall|i: int| 0 <= i < rows.len() ==> (#[trigger] rows[i]).len() <= w,
    ensures
        padded(rows, w).len() == rows.len() * w,
    decreases rows.len(),
{
    if rows.len() > 0 {
        let init = rows.drop_last();
        assert forall|i: int| 0 <= i < init.len() implies (#[trigger] init[i]).len() <= w by {
            assert(init[i] == rows[i]);
        }
        lemma_padded_len(init, w);
        assert(rows.last().len() <= w);
        assert(init.len() * w + w == rows.len() * w) by (nonlinear_arith)
            requires
                init.len() + 1 == rows.len(),
        ;
    }
}

fn is_space_char(c: char) -> (r: bool)
    ensures
        r == is_space(c),
{
    let u = c as u32;
    u == ' ' as u32 || ('\t' as u32 <= u && u <= '\r' as u32) || u == '\u{85}' as u32 || u
        == '\u{a0}' as u32 || u == '\u{1680}' as u32 || ('\u{2000}' as u32 <= u && u
        <= '\u{200a}' as u32) || u == '\u{2028}' as u32 || u == '\u{2029}' as u32 || u
        == '\u{202f}' as u32 || u == '\u{205f}' as u32 || u == '\u{3000}' as u32
}

fn is_digit_char(c: char) -> (r: bool)
    ensures
        r == is_digit(c),
{
    '0' as u32 <= c as u32 && c as u32 <= '9' as u32
}

/// Reads the cost written in `s` from position `from` on.
pub fn parse_price_at(s: &Vec<char>, from: usize) -> (r: Option<u32>)
    requires
        from <= s@.len(),
    ensures
        r == parse_price(s@.subrange(from as int, s@.len() as int)),
{
    let ghost t = s@.subrange(from as int, s@.len() as int);
    let n = s.len();
    let mut i = from;
    if i < n && s[i] == '+' {
        i = i + 1;
    }
    let begin = i;
    let ghost d = s@.subrange(begin as int, n as int);
    let ghost dd = price_digits(t);
    assert(t.len() > 0 ==> t[0] == s@[from as int]);
    assert(d =~= dd);
    if i == n {
        assert(dd.len() == 0);
        assert(parse_price(t) is None);
        return None;
    }
    let cap: u64 = 0x1_0000_0000;
    let mut acc: u64 = 0;
    while i < n
        invariant
            n == s@.len(),
            from <= begin <= i <= n,
            d == s@.subrange(begin as int, n as int),
            t == s@.subrange(from as int, n as int),
            d == dd,
            dd == price_digits(t),
            cap == u32::MAX + 1,
            forall|k: int| begin <= k < i ==> is_digit(#[trigger] s@[k]),
            acc == if digits_value(s@.subrange(begin as int, i as int)) < cap {
                digits_value(s@.subrange(begin as int, i as int))
            } else {
                cap as int
            },
        decreases n - i,
    {
        let c = s[i];
        if !is_digit_char(c) {
            proof {
                assert(d[i - begin] == c);
                assert(!is_digit(dd[i - begin]));
                assert(!all_digits(dd));
                assert(parse_price(t) is None);
            }
            return None;
        }
        let ghost pre = s@.subrange(begin as int, i as int);
        let ghost next = s@.subrange(begin as int, i + 1);
        proof {
            assert(next.drop_last() =~= pre);
            assert(next.last() == c);
            lemma_digits_nonneg(pre);
            assert(digits_value(next) == digits_value(pre) * 10 + digit_value(c));
            if digits_value(pre) >= cap {
                assert(digits_value(pre) * 10 + digit_value(c) >= cap) by (nonlinear_arith)
                    requires
                        digits_value(pre) >= cap,
                        digit_value(c) >= 0,
                ;
            }
        }
        acc = acc * 10 + (c as u32 - '0' as u32) as u64;
        if acc > cap {
            acc = cap;
        }
        i = i + 1;
    }
    proof {
        assert(s@.subrange(begin as int, i as int) =~= d);
        assert forall|k: int| 0 <= k < d.len() implies is_digit(#[trigger] d[k]) by {
            assert(d[k] == s@[begin + k]);
        }
    }
    if acc > u32::MAX as u64 {
        None
    } else {
        Some(acc as u32)
    }
}

proof fn lemma_digits_nonneg(s: Seq<char>)
    requires
        forall|i: int| 0 <= i < s.len() ==> is_digit(#[trigger] s[i]),
    ensures
        digits_value(s) >= 0,
    decreases s.len(),
{
    if s.len() > 0 {
        let init = s.drop_last();
        assert forall|i: int| 0 <= i < init.len() implies is_digit(#[trigger] init[i]) by {
            assert(init[i] == s[i]);
        }
        lemma_digits_nonneg(init);
        assert(is_digit(s[s.len() - 1]));
    }
}

/// The cell a token stands for.
pub fn cell_of_token(tok: &Vec<char>) -> (r: Option<MapCell>)
    ensures
        r == cell_of(tok@),
{
    if tok.len() == 0 {
        return None;
    }
    let first = tok[0];
    if first == 'S' {
        assert(tok@.subrange(1, tok@.len() as int) =~= tok@.drop_first());
        match parse_price_at(tok, 1) {
            Some(p) => Some(MapCell { typ: CellType::Start, price: p }),
            None => None,
        }
    } else if first == 'F' {
        assert(tok@.subrange(1, tok@.len() as int) =~= tok@.drop_first());
        match parse_price_at(tok, 1) {
            Some(p) => Some(MapCell { typ: CellType::Finish, price: p }),
            None => None,
        }
    } else if is_digit_char(first) {
        assert(tok@.subrange(0, tok@.len() as int) =~= tok@);
        match parse_price_at(tok, 0) {
            Some(p) => Some(MapCell { typ: CellType::Normal, price: p }),
            None => None,
        }
    } else {
        None
    }
}

pub open spec fn rows_view(t: Seq<Vec<Option<MapCell>>>) -> Seq<Seq<Option<MapCell>>> {
    t.map_values(|v: Vec<Option<MapCell>>| v@)
}

/// Splits the characters of a map into its non-empty rows of cells.
pub fn read_rows(chars: &Vec<char>) -> (r: Vec<Vec<Option<MapCell>>>)
    ensures
        rows_view(r@) == rows_of(chars@),
{
    let mut table: Vec<Vec<Option<MapCell>>> = Vec::new();
    let mut row: Vec<Option<MapCell>> = Vec::new();
    let mut tok: Vec<char> = Vec::new();
    let mut i: usize = 0;
    proof {
        assert(chars@.take(0).len() == 0);
        assert(rows_view(table@) =~= Seq::empty());
    }
    while i < chars.len()
        invariant
            i <= chars@.len(),
            (rows_view(table@), row@, tok@) == scan(chars@.take(i as int)),
        decreases chars@.len() - i,
    {
        let c = chars[i];
        let ghost pre = chars@.take(i as int);
        proof {
            let next = chars@.take(i + 1);
            assert(next.drop_last() =~= pre);
            assert(next.last() == c);
        }
        if c == '\n' || is_space_char(c) {
            if tok.len() > 0 {
                let cell = cell_of_token(&tok);
                row.push(cell);
            }
            tok = Vec::new();
            if c == '\n' {
                let done = row;
                row = Vec::new();
                if done.len() > 0 {
                    let ghost before = table@;
                    table.push(done);
                    proof {
                        assert(rows_view(table@) =~= rows_view(before).push(done@));
                    }
                }
            }
        } else {
            tok.push(c);
        }
        i = i + 1;
    }
    proof {
        assert(chars@.take(i as int) =~= chars@);
    }
    if tok.len() > 0 {
        let cell = cell_of_token(&tok);
        row.push(cell);
    }
    if row.len() > 0 {
        let ghost before = table@;
        table.push(row);
        proof {
            assert(rows_view(table@) =~= rows_view(before).push(row@));
        }
    }
    table
}

impl TransMap {
    /// Builds the map from the text of a map file: each non-blank line is a
    /// row, each white-space separated token a cell (see `cell_of`). The width
    /// is that of the longest row; shorter rows are filled up with absent
    /// cells.
    pub fn from_file(text: &str) -> (r: TransMap)
        ensures
            r.width() == max_len(rows_of(text@)),
            r.height() == rows_of(text@).len(),
            r.cells() == padded(rows_of(text@), r.width()),
    {
        let chars = chars_of(text);
        let table = read_rows(&chars);
        let ghost rows = rows_of(text@);
        assert(rows.len() == table@.len());
        let mut width: usize = 0;
        let mut k: usize = 0;
        while k < table.len()
            invariant
                k <= table@.len(),
                rows == rows_view(table@),
                width == max_len(rows.take(k as int)),
            decreases table@.len() - k,
        {
            proof {
                let next = rows.take(k + 1);
                assert(next.drop_last() =~= rows.take(k as int));
                assert(next.last() == table@[k as int]@);
            }
            if table[k].len() > width {
                width = table[k].len();
            }
            k = k + 1;
        }
        proof {
            assert(rows.take(k as int) =~= rows);
            lemma_max_len(rows);
        }
        let mut cells: Vec<Option<MapCell>> = Vec::new();
        let mut k: usize = 0;
        proof {
            assert(padded(rows.take(0), width as nat) =~= Seq::empty());
        }
        while k < table.len()
            invariant
                k <= table@.len(),
                rows == rows_view(table@),
                width == max_len(rows),
                forall|i: int| 0 <= i < rows.len() ==> (#[trigger] rows[i]).len() <= width,
                cells@ == padded(rows.take(k as int), width as nat),
            decreases table@.len() - k,
        {
            let row = &table[k];
            let ghost base = cells@;
            let mut j: usize = 0;
            while j < row.len()
                invariant
                    j <= row@.len(),
                    cells@ == base + row@.take(j as int),
                decreases row@.len() - j,
            {
                cells.push(row[j]);
                proof {
                    assert(base + row@.take(j + 1) =~= (base + row@.take(j as int)).push(row@[j as int]));
                }
                j = j + 1;
            }
            assert(rows[k as int] == row@);
            assert(row@.len() <= width);
            let pad = width - row.len();
            let mut j: usize = 0;
            proof {
                assert(row@.take(row@.len() as int) =~= row@);
                assert(Seq::<Option<MapCell>>::new(0, |i: int| None) =~= Seq::empty());
            }
            while j < pad
                invariant
                    j <= pad,
                    cells@ == base + row@ + Seq::<Option<MapCell>>::new(j as nat, |i: int| None),
                decreases pad - j,
            {
                cells.push(None);
                proof {
                    assert(base + row@ + Seq::<Option<MapCell>>::new((j + 1) as nat, |i: int| None)
                        =~= (base + row@ + Seq::<Option<MapCell>>::new(j as nat, |i: int| None)).push(None));
                }
                j = j + 1;
            }
            proof {
                let next = rows.take(k + 1);
                assert(next.drop_last() =~= rows.take(k as int));
                assert(next.last() == row@);
            }
            k = k + 1;
        }
        proof {
            assert(rows.take(k as int) =~= rows);
            lemma_padded_len(rows, width as nat);
            assert(rows.len() == table@.len());
            assert(cells@.len() == width * table@.len()) by (nonlinear_arith)
                requires
                    cells@.len() == rows.len() * width,
                    rows.len() == table@.len(),
            ;
        }
        TransMap { width, height: table.len(), cells }
    }
}

/// Collects the characters of `text` in order.
pub fn chars_of(text: &str) -> (r: Vec<char>)
    ensures
        r@ == text@,
{
    let mut r: Vec<char> = Vec::new();
    for c in it: text.chars()
        invariant
            r@ == it.seq().take(it.index() as int),
    {
        r.push(c);
    }
    r
}

} // verus!
