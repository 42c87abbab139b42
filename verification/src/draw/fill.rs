use crate::draw::Point;
use indexmap::IndexMap;
use vstd::prelude::*;

verus! {

/// `indexmap::IndexMap`, a hash map that keeps its entries in the order of insertion; what a
/// map holds is named below for each kind of map that the fill uses.
#[verifier::external_type_specification]
#[verifier::external_body]
#[verifier::reject_recursive_types(K)]
#[verifier::reject_recursive_types(V)]
#[verifier::reject_recursive_types(S)]
pub struct ExIndexMap<K, V, S>(IndexMap<K, V, S>);

/// Where an edge of a contour crosses a pixel row: its leftmost x, its rightmost x, and
/// whether it is poisoned (the row holds an end of the edge's segment that the scan must not
/// count as a crossing).
pub type EdgeSpan = (i32, i32, bool);

/// The edges on one row, by segment index, in the order in which they were first met.
pub type RowEdges = IndexMap<usize, (i32, i32, bool)>;

/// The rows of a contour, by y, in the order in which they were first met.
pub type EdgesByY = IndexMap<i32, IndexMap<usize, (i32, i32, bool)>>;

/// What a row of edges holds, in order: each edge's segment index and span.
pub uninterp spec fn row_edge_entries(m: IndexMap<usize, (i32, i32, bool)>) -> Seq<(usize, (i32, i32, bool))>;

/// What the rows of edges hold, in order: each row's y and its edges.
pub uninterp spec fn rows_entries(m: IndexMap<i32, IndexMap<usize, (i32, i32, bool)>>) -> Seq<
    (i32, Seq<(usize, (i32, i32, bool))>),
>;

/// `IndexMap::new`: an empty map.
#[verifier::external_body]
fn new_row_edges() -> (m: RowEdges)
    ensures
        row_edge_entries(m) == Seq::<(usize, EdgeSpan)>::empty(),
{
    IndexMap::new()
}

/// `IndexMap::new`: an empty map.
#[verifier::external_body]
fn new_rows() -> (m: EdgesByY)
    ensures
        rows_entries(m) == Seq::<(i32, Seq<(usize, EdgeSpan)>)>::empty(),
{
    IndexMap::new()
}

/// `IndexMap::len`: the number of entries.
#[verifier::external_body]
fn rows_len(m: &EdgesByY) -> (n: usize)
    ensures
        n == rows_entries(*m).len(),
{
    m.len()
}

/// `IndexMap::len`: the number of entries.
#[verifier::external_body]
fn row_len(m: &RowEdges) -> (n: usize)
    ensures
        n == row_edge_entries(*m).len(),
{
    m.len()
}

/// `IndexMap::get_index_of`: the position of the entry with key `y`, where there is one.
#[verifier::external_body]
fn find_row(m: &EdgesByY, y: i32) -> (res: Option<usize>)
    ensures
        match res {
            Some(i) => i < rows_entries(*m).len() && rows_entries(*m)[i as int].0 == y,
            None => forall|j: int| 0 <= j < rows_entries(*m).len() ==> rows_entries(*m)[j].0 != y,
        },
{
    m.get_index_of(&y)
}

/// `IndexMap::get_index_of`: the position of the entry with key `idx`, where there is one.
#[verifier::external_body]
fn find_edge(m: &RowEdges, idx: usize) -> (res: Option<usize>)
    ensures
        match res {
            Some(j) => j < row_edge_entries(*m).len() && row_edge_entries(*m)[j as int].0 == idx,
            None => forall|k: int| 0 <= k < row_edge_entries(*m).len() ==> row_edge_entries(*m)[k].0 != idx,
        },
{
    m.get_index_of(&idx)
}

/// `IndexMap::insert` of a key that the map lacks: the entry is added last.
#[verifier::external_body]
fn push_row(m: &mut EdgesByY, y: i32, row: RowEdges)
    requires
        forall|j: int| 0 <= j < rows_entries(*old(m)).len() ==> rows_entries(*old(m))[j].0 != y,
    ensures
        rows_entries(*final(m)) == rows_entries(*old(m)).push((y, row_edge_entries(row))),
{
    m.insert(y, row);
}

/// `IndexMap::insert` of a key that the map lacks: the entry is added last.
#[verifier::external_body]
fn push_edge(m: &mut RowEdges, idx: usize, e: EdgeSpan)
    requires
        forall|k: int| 0 <= k < row_edge_entries(*old(m)).len() ==> row_edge_entries(*old(m))[k].0 != idx,
    ensures
        row_edge_entries(*final(m)) == row_edge_entries(*old(m)).push((idx, e)),
{
    m.insert(idx, e);
}

/// `IndexMut<usize>` of `IndexMap`: the value at position `i`, to change in place.
#[verifier::external_body]
fn row_at_mut(m: &mut EdgesByY, i: usize) -> (r: &mut RowEdges)
    requires
        i < rows_entries(*old(m)).len(),
    ensures
        row_edge_entries(*r) == rows_entries(*old(m))[i as int].1,
        rows_entries(*final(m)) == rows_entries(*old(m)).update(
            i as int,
            (rows_entries(*old(m))[i as int].0, row_edge_entries(*final(r))),
        ),
{
    &mut m[i]
}

/// `IndexMut<usize>` of `IndexMap`: sets the value at position `j`.
#[verifier::external_body]
fn set_edge(m: &mut RowEdges, j: usize, e: EdgeSpan)
    requires
        j < row_edge_entries(*old(m)).len(),
    ensures
        row_edge_entries(*final(m)) == row_edge_entries(*old(m)).update(
            j as int,
            (row_edge_entries(*old(m))[j as int].0, e),
        ),
{
    m[j] = e;
}

/// `IndexMap::get_index`: the entry at position `i`.
#[verifier::external_body]
fn row_at(m: &EdgesByY, i: usize) -> (res: (i32, &RowEdges))
    requires
        i < rows_entries(*m).len(),
    ensures
        res.0 == rows_entries(*m)[i as int].0,
        row_edge_entries(*res.1) == rows_entries(*m)[i as int].1,
{
    let (y, row) = m.get_index(i).unwrap();
    (*y, row)
}

/// `IndexMap::get_index`: the entry at position `j`.
#[verifier::external_body]
fn edge_at(m: &RowEdges, j: usize) -> (res: (usize, EdgeSpan))
    requires
        j < row_edge_entries(*m).len(),
    ensures
        res == row_edge_entries(*m)[j as int],
{
    let (idx, e) = m.get_index(j).unwrap();
    (*idx, *e)
}

// ---------------------------------------------------------------------------------------
// The edges of a contour, row by row.

pub open spec fn has_key<K, V>(s: Seq<(K, V)>, k: K) -> bool {
    exists|j: int| 0 <= j < s.len() && s[j].0 == k
}

pub open spec fn keys_distinct<K, V>(s: Seq<(K, V)>) -> bool {
    forall|i: int, j: int| 0 <= i < j < s.len() ==> s[i].0 != s[j].0
}

/// Rows with distinct ys, each with edges of distinct indices.
pub open spec fn rows_ok(rows: Seq<(i32, Seq<(usize, EdgeSpan)>)>) -> bool {
    &&& keys_distinct(rows)
    &&& forall|i: int| 0 <= i < rows.len() ==> keys_distinct(#[trigger] rows[i].1)
}

/// An edge's span once it also covers `x` (and is poisoned if `poisoned` holds).
pub open spec fn widen(e: EdgeSpan, x: i32, poisoned: bool) -> EdgeSpan {
    (
        if x < e.0 {
            x
        } else {
            e.0
        },
        if x > e.1 {
            x
        } else {
            e.1
        },
        e.2 || poisoned,
    )
}

/// A row once the pixel at `x` of segment `idx` is added to it.
pub open spec fn add_to_row(row: Seq<(usize, EdgeSpan)>, idx: usize, x: i32, p: bool) -> Seq<(usize, EdgeSpan)> {
    if has_key(row, idx) {
        row.map_values(
            |e: (usize, EdgeSpan)|
                if e.0 == idx {
                    (idx, widen(e.1, x, p))
                } else {
                    e
                },
        )
    } else {
        row.push((idx, (x, x, p)))
    }
}

/// The rows once the pixel `(x, y)` of segment `idx` is added to them.
pub open spec fn add_to_rows(rows: Seq<(i32, Seq<(usize, EdgeSpan)>)>, y: i32, idx: usize, x: i32, p: bool) -> Seq<
    (i32, Seq<(usize, EdgeSpan)>),
> {
    if has_key(rows, y) {
        rows.map_values(
            |r: (i32, Seq<(usize, EdgeSpan)>)|
                if r.0 == y {
                    (y, add_to_row(r.1, idx, x, p))
                } else {
                    r
                },
        )
    } else {
        rows.push((y, add_to_row(Seq::empty(), idx, x, p)))
    }
}

pub open spec fn abs(v: int) -> int {
    if v < 0 {
        -v
    } else {
        v
    }
}

pub open spec fn dir(c1: int, c2: int) -> int {
    if c1 < c2 {
        1
    } else {
        -1
    }
}

/// One step of Bresenham's walk from a pixel `(s.0, s.1)` with error term `s.2`.
pub open spec fn walk_step(s: (int, int, int), dx: int, dy: int, sx: int, sy: int) -> (int, int, int) {
    let e2 = 2 * s.2;
    let x = if e2 >= dy {
        s.0 + sx
    } else {
        s.0
    };
    let err1 = if e2 >= dy {
        s.2 + dy
    } else {
        s.2
    };
    let y = if e2 <= dx {
        s.1 + sy
    } else {
        s.1
    };
    let err2 = if e2 <= dx {
        err1 + dx
    } else {
        err1
    };
    (x, y, err2)
}

/// The pixels that Bresenham's walk visits from state `s` until it reaches `(x2, y2)`, for at
/// most `fuel` steps.
pub open spec fn walk(s: (int, int, int), x2: int, y2: int, dx: int, dy: int, sx: int, sy: int, fuel: nat) -> Seq<
    (int, int),
>
    decreases fuel,
{
    if (s.0 == x2 && s.1 == y2) || fuel == 0 {
        seq![(s.0, s.1)]
    } else {
        seq![(s.0, s.1)] + walk(walk_step(s, dx, dy, sx, sy), x2, y2, dx, dy, sx, sy, (fuel - 1) as nat)
    }
}

/// The pixels of the segment from `p1` to `p2`, as Bresenham's algorithm visits them.
pub open spec fn line_pixels(p1: Point, p2: Point) -> Seq<(int, int)> {
    let dx = abs(p2.x - p1.x);
    let dy = -abs(p2.y - p1.y);
    walk(
        (p1.x as int, p1.y as int, dx + dy),
        p2.x as int,
        p2.y as int,
        dx,
        dy,
        dir(p1.x as int, p2.x as int),
        dir(p1.y as int, p2.y as int),
        (dx - dy) as nat,
    )
}

/// Whether the pixel is an end of the segment where the segment leaves downward (its start,
/// when it goes down or stays level; its end, when it goes up or stays level).
pub open spec fn pixel_poisoned(pt: (int, int), p1: Point, p2: Point) -> bool {
    if pt.0 == p1.x && pt.1 == p1.y {
        p1.y <= p2.y
    } else if pt.0 == p2.x && pt.1 == p2.y {
        p2.y <= p1.y
    } else {
        false
    }
}

/// The rows once the pixels `pts` of segment `idx` (from `p1` to `p2`) are added, those on
/// rows `min_y..=max_y` only.
pub open spec fn add_pixels(
    rows: Seq<(i32, Seq<(usize, EdgeSpan)>)>,
    idx: usize,
    pts: Seq<(int, int)>,
    p1: Point,
    p2: Point,
    min_y: i32,
    max_y: i32,
) -> Seq<(i32, Seq<(usize, EdgeSpan)>)>
    decreases pts.len(),
{
    if pts.len() == 0 {
        rows
    } else {
        let prev = add_pixels(rows, idx, pts.drop_last(), p1, p2, min_y, max_y);
        let pt = pts.last();
        if min_y <= pt.1 <= max_y {
            add_to_rows(prev, pt.1 as i32, idx, pt.0 as i32, pixel_poisoned(pt, p1, p2))
        } else {
            prev
        }
    }
}

/// The edges, row by row, of the contour made of the segments `segs`.
pub open spec fn contour_rows(segs: Seq<(Point, Point)>, min_y: i32, max_y: i32) -> Seq<(i32, Seq<(usize, EdgeSpan)>)>
    decreases segs.len(),
{
    if segs.len() == 0 {
        Seq::empty()
    } else {
        let n = segs.len() - 1;
        add_pixels(
            contour_rows(segs.drop_last(), min_y, max_y),
            n as usize,
            line_pixels(segs[n].0, segs[n].1),
            segs[n].0,
            segs[n].1,
            min_y,
            max_y,
        )
    }
}

// ---------------------------------------------------------------------------------------
// The spans to fill, row by row.

/// The edges of a row that are not poisoned, as (leftmost x, rightmost x), in order.
pub open spec fn clean_edges(row: Seq<(usize, EdgeSpan)>) -> Seq<(i32, i32)>
    decreases row.len(),
{
    if row.len() == 0 {
        Seq::empty()
    } else {
        let prev = clean_edges(row.drop_last());
        let e = row.last().1;
        if e.2 {
            prev
        } else {
            prev.push((e.0, e.1))
        }
    }
}

/// `s` with `e` inserted before its first element whose leftmost x is greater than `e`'s.
pub open spec fn insert_by_x(s: Seq<(i32, i32)>, e: (i32, i32)) -> Seq<(i32, i32)>
    decreases s.len(),
{
    if s.len() == 0 {
        seq![e]
    } else if s[0].0 > e.0 {
        seq![e] + s
    } else {
        seq![s[0]] + insert_by_x(s.drop_first(), e)
    }
}

/// The edges stably sorted by leftmost x.
pub open spec fn sort_by_x(s: Seq<(i32, i32)>) -> Seq<(i32, i32)>
    decreases s.len(),
{
    if s.len() == 0 {
        Seq::empty()
    } else {
        insert_by_x(sort_by_x(s.drop_last()), s.last())
    }
}

/// Whether the edges come in order of leftmost x.
pub open spec fn sorted_by_x(s: Seq<(i32, i32)>) -> bool {
    forall|i: int, j: int| 0 <= i < j < s.len() ==> s[i].0 <= s[j].0
}

proof fn lemma_insert_by_x_multiset(s: Seq<(i32, i32)>, e: (i32, i32))
    ensures
        insert_by_x(s, e).to_multiset() =~= s.to_multiset().insert(e),
    decreases s.len(),
{
    broadcast use vstd::seq_lib::group_to_multiset_ensures;
    broadcast use vstd::multiset::group_multiset_axioms;

    if s.len() == 0 {
        assert(seq![e] =~= Seq::<(i32, i32)>::empty().push(e));
    } else if s[0].0 > e.0 {
        vstd::seq_lib::lemma_multiset_commutative(seq![e], s);
        assert(seq![e] =~= Seq::<(i32, i32)>::empty().push(e));
    } else {
        let r = s.drop_first();
        lemma_insert_by_x_multiset(r, e);
        vstd::seq_lib::lemma_multiset_commutative(seq![s[0]], insert_by_x(r, e));
        vstd::seq_lib::lemma_multiset_commutative(seq![s[0]], r);
        assert(seq![s[0]] + r =~= s);
        assert(seq![s[0]] =~= Seq::<(i32, i32)>::empty().push(s[0]));
    }
}

proof fn lemma_insert_by_x_sorted(s: Seq<(i32, i32)>, e: (i32, i32))
    requires
        sorted_by_x(s),
    ensures
        sorted_by_x(insert_by_x(s, e)),
    decreases s.len(),
{
    broadcast use vstd::seq_lib::group_to_multiset_ensures;
    broadcast use vstd::multiset::group_multiset_axioms;

    if s.len() == 0 {
    } else if s[0].0 > e.0 {
        let t = seq![e] + s;
        assert forall|i: int, j: int| 0 <= i < j < t.len() implies t[i].0 <= t[j].0 by {
            if i == 0 {
                assert(t[j] == s[j - 1]);
                if j > 1 {
                    assert(s[0].0 <= s[j - 1].0);
                }
            } else {
                assert(t[i] == s[i - 1] && t[j] == s[j - 1]);
            }
        }
    } else {
        let r = s.drop_first();
        assert(sorted_by_x(r)) by {
            assert forall|i: int, j: int| 0 <= i < j < r.len() implies r[i].0 <= r[j].0 by {
                assert(r[i] == s[i + 1] && r[j] == s[j + 1]);
            }
        }
        lemma_insert_by_x_sorted(r, e);
        lemma_insert_by_x_multiset(r, e);
        let u = insert_by_x(r, e);
        let t = seq![s[0]] + u;
        assert forall|i: int, j: int| 0 <= i < j < t.len() implies t[i].0 <= t[j].0 by {
            if i == 0 {
                let x = u[j - 1];
                assert(t[j] == x);
                assert(u.contains(x));
                assert(u.to_multiset().count(x) > 0);
                if x != e {
                    assert(r.to_multiset().count(x) > 0);
                    assert(r.contains(x));
                    let k = choose|k: int| 0 <= k < r.len() && r[k] == x;
                    assert(r[k] == s[k + 1]);
                }
            } else {
                assert(t[i] == u[i - 1] && t[j] == u[j - 1]);
            }
        }
    }
}

/// Sorting edges by leftmost x puts them in order of leftmost x and keeps each edge as often as
/// it was there.
pub proof fn lemma_sort_by_x(s: Seq<(i32, i32)>)
    ensures
        sorted_by_x(sort_by_x(s)),
        sort_by_x(s).to_multiset() =~= s.to_multiset(),
    decreases s.len(),
{
    broadcast use vstd::seq_lib::group_to_multiset_ensures;

    if s.len() > 0 {
        lemma_sort_by_x(s.drop_last());
        lemma_insert_by_x_sorted(sort_by_x(s.drop_last()), s.last());
        lemma_insert_by_x_multiset(sort_by_x(s.drop_last()), s.last());
        assert(s.drop_last().push(s.last()) =~= s);
    }
}

/// The spans of row `y` between the sorted edges taken two by two, clipped to
/// `min_x..=max_x`: (y, first x, last x).
pub open spec fn row_spans(y: i32, edges: Seq<(i32, i32)>, min_x: i32, max_x: i32) -> Seq<(i32, i32, i32)> {
    Seq::new(
        edges.len() / 2,
        |k: int|
            (
                y,
                if edges[2 * k].0 > min_x {
                    edges[2 * k].0
                } else {
                    min_x
                },
                if edges[2 * k + 1].1 < max_x {
                    edges[2 * k + 1].1
                } else {
                    max_x
                },
            ),
    )
}

/// The spans of all rows, in the rows' order.
pub open spec fn spans_of_rows(rows: Seq<(i32, Seq<(usize, EdgeSpan)>)>, min_x: i32, max_x: i32) -> Seq<
    (i32, i32, i32),
>
    decreases rows.len(),
{
    if rows.len() == 0 {
        Seq::empty()
    } else {
        spans_of_rows(rows.drop_last(), min_x, max_x) + row_spans(
            rows.last().0,
            sort_by_x(clean_edges(rows.last().1)),
            min_x,
            max_x,
        )
    }
}

/// What filling the contour `segs` within the box `min_x..=max_x`, `min_y..=max_y` paints.
pub open spec fn spec_fill_spans(segs: Seq<(Point, Point)>, min_x: i32, max_x: i32, min_y: i32, max_y: i32) -> Seq<
    (i32, i32, i32),
> {
    spans_of_rows(contour_rows(segs, min_y, max_y), min_x, max_x)
}

/// Every span that filling a contour paints lies within the box: its row is one of
/// `min_y..=max_y`, it starts at `min_x` or right of it and ends at `max_x` or left of it.
pub proof fn lemma_fill_spans_in_box(segs: Seq<(Point, Point)>, min_x: i32, max_x: i32, min_y: i32, max_y: i32)
    ensures
        forall|k: int|
            0 <= k < spec_fill_spans(segs, min_x, max_x, min_y, max_y).len() ==> {
                let sp = #[trigger] spec_fill_spans(segs, min_x, max_x, min_y, max_y)[k];
                &&& min_y <= sp.0 <= max_y
                &&& min_x <= sp.1
                &&& sp.2 <= max_x
            },
{
    lemma_contour_rows_in_box(segs, min_y, max_y);
    lemma_spans_of_rows_in_box(contour_rows(segs, min_y, max_y), min_x, max_x, min_y, max_y);
}

/// Whether every row lies in `min_y..=max_y`.
pub open spec fn rows_within(rows: Seq<(i32, Seq<(usize, EdgeSpan)>)>, min_y: i32, max_y: i32) -> bool {
    forall|i: int| 0 <= i < rows.len() ==> min_y <= #[trigger] rows[i].0 <= max_y
}

proof fn lemma_add_to_rows_within(
    rows: Seq<(i32, Seq<(usize, EdgeSpan)>)>,
    y: i32,
    idx: usize,
    x: i32,
    p: bool,
    min_y: i32,
    max_y: i32,
)
    requires
        rows_within(rows, min_y, max_y),
        min_y <= y <= max_y,
    ensures
        rows_within(add_to_rows(rows, y, idx, x, p), min_y, max_y),
{
    let res = add_to_rows(rows, y, idx, x, p);
    if has_key(rows, y) {
        assert forall|i: int| 0 <= i < res.len() implies min_y <= #[trigger] res[i].0 <= max_y by {
            assert(min_y <= rows[i].0 <= max_y);
        }
    } else {
        assert forall|i: int| 0 <= i < res.len() implies min_y <= #[trigger] res[i].0 <= max_y by {
            if i < rows.len() {
                assert(res[i] == rows[i]);
            }
        }
    }
}

proof fn lemma_add_pixels_within(
    rows: Seq<(i32, Seq<(usize, EdgeSpan)>)>,
    idx: usize,
    pts: Seq<(int, int)>,
    p1: Point,
    p2: Point,
    min_y: i32,
    max_y: i32,
)
    requires
        rows_within(rows, min_y, max_y),
    ensures
        rows_within(add_pixels(rows, idx, pts, p1, p2, min_y, max_y), min_y, max_y),
    decreases pts.len(),
{
    if pts.len() > 0 {
        lemma_add_pixels_within(rows, idx, pts.drop_last(), p1, p2, min_y, max_y);
        let prev = add_pixels(rows, idx, pts.drop_last(), p1, p2, min_y, max_y);
        let pt = pts.last();
        if min_y <= pt.1 <= max_y {
            lemma_add_to_rows_within(prev, pt.1 as i32, idx, pt.0 as i32, pixel_poisoned(pt, p1, p2), min_y, max_y);
        }
    }
}

proof fn lemma_contour_rows_in_box(segs: Seq<(Point, Point)>, min_y: i32, max_y: i32)
    ensures
        rows_within(contour_rows(segs, min_y, max_y), min_y, max_y),
    decreases segs.len(),
{
    if segs.len() > 0 {
        let n = segs.len() - 1;
        lemma_contour_rows_in_box(segs.drop_last(), min_y, max_y);
        lemma_add_pixels_within(
            contour_rows(segs.drop_last(), min_y, max_y),
            n as usize,
            line_pixels(segs[n].0, segs[n].1),
            segs[n].0,
            segs[n].1,
            min_y,
            max_y,
        );
    }
}

proof fn lemma_spans_of_rows_in_box(
    rows: Seq<(i32, Seq<(usize, EdgeSpan)>)>,
    min_x: i32,
    max_x: i32,
    min_y: i32,
    max_y: i32,
)
    requires
        rows_within(rows, min_y, max_y),
    ensures
        forall|k: int|
            0 <= k < spans_of_rows(rows, min_x, max_x).len() ==> {
                let sp = #[trigger] spans_of_rows(rows, min_x, max_x)[k];
                &&& min_y <= sp.0 <= max_y
                &&& min_x <= sp.1
                &&& sp.2 <= max_x
            },
    decreases rows.len(),
{
    if rows.len() > 0 {
        let prev = rows.drop_last();
        assert forall|i: int| 0 <= i < prev.len() implies min_y <= #[trigger] prev[i].0 <= max_y by {
            assert(prev[i] == rows[i]);
        }
        lemma_spans_of_rows_in_box(prev, min_x, max_x, min_y, max_y);
        assert(min_y <= rows[rows.len() - 1].0 <= max_y);
        let a = spans_of_rows(prev, min_x, max_x);
        let b = row_spans(rows.last().0, sort_by_x(clean_edges(rows.last().1)), min_x, max_x);
        assert forall|k: int| 0 <= k < (a + b).len() implies {
            let sp = #[trigger] (a + b)[k];
            &&& min_y <= sp.0 <= max_y
            &&& min_x <= sp.1
            &&& sp.2 <= max_x
        } by {
            if k >= a.len() {
                assert((a + b)[k] == b[k - a.len()]);
            } else {
                assert((a + b)[k] == a[k]);
            }
        }
    }
}

// ---------------------------------------------------------------------------------------
// Proofs and code.

proof fn lemma_update_as_map<K, V>(s: Seq<(K, V)>, i: int, k: K, f: spec_fn((K, V)) -> (K, V))
    requires
        keys_distinct(s),
        0 <= i < s.len(),
        s[i].0 == k,
        forall|e: (K, V)| e.0 != k ==> #[trigger] f(e) == e,
    ensures
        s.map_values(f) == s.update(i, f(s[i])),
        has_key(s, k),
{
    assert forall|j: int| 0 <= j < s.len() && j != i implies s[j].0 != k by {
        if j < i {
            assert(s[j].0 != s[i].0);
        } else {
            assert(s[i].0 != s[j].0);
        }
    }
    assert(s.map_values(f) =~= s.update(i, f(s[i])));
}

/// Adds the pixel `x` of segment `idx` to a row.
fn add_to_row_exec(row: &mut RowEdges, idx: usize, x: i32, p: bool)
    requires
        keys_distinct(row_edge_entries(*old(row))),
    ensures
        keys_distinct(row_edge_entries(*final(row))),
        row_edge_entries(*final(row)) == add_to_row(row_edge_entries(*old(row)), idx, x, p),
{
    let ghost s = row_edge_entries(*row);
    match find_edge(row, idx) {
        Some(j) => {
            let (_, e) = edge_at(row, j);
            let w = (
                if x < e.0 {
                    x
                } else {
                    e.0
                },
                if x > e.1 {
                    x
                } else {
                    e.1
                },
                e.2 || p,
            );
            set_edge(row, j, w);
            proof {
                let f = |e: (usize, EdgeSpan)|
                    if e.0 == idx {
                        (idx, widen(e.1, x, p))
                    } else {
                        e
                    };
                lemma_update_as_map(s, j as int, idx, f);
                assert(row_edge_entries(*row) =~= s.update(j as int, f(s[j as int])));
                assert forall|a: int, b: int|
                    0 <= a < b < row_edge_entries(*row).len() implies row_edge_entries(*row)[a].0
                    != row_edge_entries(*row)[b].0 by {
                    assert(row_edge_entries(*row)[a].0 == s[a].0);
                    assert(row_edge_entries(*row)[b].0 == s[b].0);
                }
            }
        },
        None => {
            push_edge(row, idx, (x, x, p));
            proof {
                let t = row_edge_entries(*row);
                assert forall|a: int, b: int| 0 <= a < b < t.len() implies t[a].0 != t[b].0 by {
                    if b < s.len() {
                        assert(t[a] == s[a] && t[b] == s[b]);
                    } else {
                        assert(t[a] == s[a]);
                    }
                }
            }
        },
    }
}

/// Adds the pixel `(x, y)` of segment `idx` to the rows.
fn add_to_rows_exec(rows: &mut EdgesByY, y: i32, idx: usize, x: i32, p: bool)
    requires
        rows_ok(rows_entries(*old(rows))),
    ensures
        rows_ok(rows_entries(*final(rows))),
        rows_entries(*final(rows)) == add_to_rows(rows_entries(*old(rows)), y, idx, x, p),
{
    let ghost s = rows_entries(*rows);
    let i = match find_row(rows, y) {
        Some(i) => i,
        None => {
            let empty = new_row_edges();
            push_row(rows, y, empty);
            let n = rows_len(rows);
            n - 1
        },
    };
    let ghost s1 = rows_entries(*rows);
    assert(keys_distinct(s1[i as int].1)) by {
        if i < s.len() {
            assert(s1 == s);
        }
    }
    let row = row_at_mut(rows, i);
    add_to_row_exec(row, idx, x, p);
    proof {
        let f = |r: (i32, Seq<(usize, EdgeSpan)>)|
            if r.0 == y {
                (y, add_to_row(r.1, idx, x, p))
            } else {
                r
            };
        let t = rows_entries(*rows);
        if has_key(s, y) {
            let j = choose|j: int| 0 <= j < s.len() && s[j].0 == y;
            assert(s1 == s);
            assert(i == j) by {
                if i != j {
                    if i < j {
                        assert(s[i as int].0 != s[j].0);
                    } else {
                        assert(s[j].0 != s[i as int].0);
                    }
                }
            }
            lemma_update_as_map(s, i as int, y, f);
            assert(t =~= s.map_values(f));
        } else {
            assert(s1 == s.push((y, Seq::<(usize, EdgeSpan)>::empty())));
            assert(t =~= s.push((y, add_to_row(Seq::empty(), idx, x, p))));
        }
        assert forall|a: int, b: int| 0 <= a < b < t.len() implies t[a].0 != t[b].0 by {
            assert(t[a].0 == s1[a].0 && t[b].0 == s1[b].0);
            if b < s.len() {
                assert(s1[a] == s[a] && s1[b] == s[b]);
            } else if a < s.len() {
                assert(s1[a] == s[a]);
            }
        }
        assert forall|a: int| 0 <= a < t.len() implies keys_distinct(#[trigger] t[a].1) by {
            if a != i {
                assert(t[a] == s1[a]);
                if a < s.len() {
                    assert(s1[a] == s[a]);
                }
            }
        }
    }
}

proof fn lemma_no_overshoot_x(dx: int, d: int, b: int)
    requires
        0 <= dx,
        0 <= b,
        b + 1 <= d,
    ensures
        2 * (dx * (b + 1) - d * (dx + 1)) < -d,
{
    assert(dx * (b + 1) <= dx * d) by (nonlinear_arith)
        requires
            0 <= dx,
            b + 1 <= d,
    ;
    assert(d * (dx + 1) == d * dx + d) by (nonlinear_arith);
    assert(dx * d == d * dx) by (nonlinear_arith);
}

proof fn lemma_no_overshoot_y(dx: int, d: int, a: int)
    requires
        0 <= d,
        0 <= a,
        a + 1 <= dx,
    ensures
        2 * (dx * (d + 1) - d * (a + 1)) > dx,
{
    assert(d * (a + 1) <= d * dx) by (nonlinear_arith)
        requires
            0 <= d,
            a + 1 <= dx,
    ;
    assert(dx * (d + 1) == dx * d + dx) by (nonlinear_arith);
    assert(dx * d == d * dx) by (nonlinear_arith);
}

proof fn lemma_add_pixels_push(
    rows: Seq<(i32, Seq<(usize, EdgeSpan)>)>,
    idx: usize,
    pts: Seq<(int, int)>,
    pt: (int, int),
    p1: Point,
    p2: Point,
    min_y: i32,
    max_y: i32,
)
    ensures
        add_pixels(rows, idx, pts.push(pt), p1, p2, min_y, max_y) == (if min_y <= pt.1 <= max_y {
            add_to_rows(
                add_pixels(rows, idx, pts, p1, p2, min_y, max_y),
                pt.1 as i32,
                idx,
                pt.0 as i32,
                pixel_poisoned(pt, p1, p2),
            )
        } else {
            add_pixels(rows, idx, pts, p1, p2, min_y, max_y)
        }),
{
    assert(pts.push(pt).drop_last() =~= pts);
}

/// Adds the pixels of the segment from `p1` to `p2` (segment `idx`) to the rows, those on rows
/// `min_y..=max_y` only.
fn add_line(rows: &mut EdgesByY, idx: usize, p1: Point, p2: Point, min_y: i32, max_y: i32)
    requires
        rows_ok(rows_entries(*old(rows))),
    ensures
        rows_ok(rows_entries(*final(rows))),
        rows_entries(*final(rows)) == add_pixels(
            rows_entries(*old(rows)),
            idx,
            line_pixels(p1, p2),
            p1,
            p2,
            min_y,
            max_y,
        ),
{
    let x1: i64 = p1.x as i64;
    let y1: i64 = p1.y as i64;
    let x2: i64 = p2.x as i64;
    let y2: i64 = p2.y as i64;
    let dx: i64 = if x2 >= x1 {
        x2 - x1
    } else {
        x1 - x2
    };
    let dy: i64 = if y2 >= y1 {
        y1 - y2
    } else {
        y2 - y1
    };
    let sx: i32 = if p1.x < p2.x {
        1
    } else {
        -1
    };
    let sy: i32 = if p1.y < p2.y {
        1
    } else {
        -1
    };
    let mut err: i64 = dx + dy;
    let mut x: i32 = p1.x;
    let mut y: i32 = p1.y;
    let ghost full = line_pixels(p1, p2);
    let ghost rows0 = rows_entries(*rows);
    let ghost d: int = -dy;
    let ghost mut seen: Seq<(int, int)> = Seq::empty();
    let ghost mut fuel: nat = (dx - dy) as nat;
    let ghost mut a: int = 0;
    let ghost mut b: int = 0;
    assert(dx * (0int + 1) == dx && d * (0int + 1) == d) by (nonlinear_arith);
    assert(seen + full =~= full);
    loop
        invariant_except_break
            0 <= a <= dx,
            0 <= b <= d,
            d == -dy,
            dx == abs(p2.x - p1.x),
            dy == -abs(p2.y - p1.y),
            sx == dir(p1.x as int, p2.x as int),
            sy == dir(p1.y as int, p2.y as int),
            if p1.x < p2.x {
                x == p1.x + a
            } else {
                x == p1.x - a
            },
            if p1.y < p2.y {
                y == p1.y + b
            } else {
                y == p1.y - b
            },
            err == dx * (b + 1) - d * (a + 1),
            3 * dy <= 2 * err <= 3 * dx,
            fuel >= (dx - a) + (d - b),
            full == seen + walk(
                (x as int, y as int, err as int),
                p2.x as int,
                p2.y as int,
                dx as int,
                dy as int,
                sx as int,
                sy as int,
                fuel,
            ),
            rows_entries(*rows) == add_pixels(rows0, idx, seen, p1, p2, min_y, max_y),
            rows_ok(rows_entries(*rows)),
        ensures
            rows_ok(rows_entries(*rows)),
            rows_entries(*rows) == add_pixels(rows0, idx, full, p1, p2, min_y, max_y),
        decreases (dx - a) + (d - b),
    {
        let is_start = x == p1.x && y == p1.y;
        let is_end = x == p2.x && y == p2.y;
        let poisoned = if is_start {
            p1.y <= p2.y
        } else if is_end {
            p2.y <= p1.y
        } else {
            false
        };
        let ghost pt = (x as int, y as int);
        let ghost st = (x as int, y as int, err as int);
        proof {
            lemma_add_pixels_push(rows0, idx, seen, pt, p1, p2, min_y, max_y);
        }
        if y >= min_y && y <= max_y {
            add_to_rows_exec(rows, y, idx, x, poisoned);
        }
        if is_end {
            proof {
                assert(walk(st, p2.x as int, p2.y as int, dx as int, dy as int, sx as int, sy as int, fuel) == seq![pt]);
                assert(full =~= seen.push(pt));
            }
            break;
        }
        proof {
            assert(x == p2.x <==> a == dx);
            assert(y == p2.y <==> b == d);
            assert(fuel > 0);
            let w = walk(
                walk_step(st, dx as int, dy as int, sx as int, sy as int),
                p2.x as int,
                p2.y as int,
                dx as int,
                dy as int,
                sx as int,
                sy as int,
                (fuel - 1) as nat,
            );
            assert(walk(st, p2.x as int, p2.y as int, dx as int, dy as int, sx as int, sy as int, fuel) == seq![pt] + w);
            assert(full =~= seen.push(pt) + w);
            seen = seen.push(pt);
            fuel = (fuel - 1) as nat;
            if a == dx {
                lemma_no_overshoot_x(dx as int, d, b);
            }
            if b == d {
                lemma_no_overshoot_y(dx as int, d, a);
            }
        }
        let e2 = 2 * err;
        if e2 >= dy {
            proof {
                assert(d * (a + 2) == d * (a + 1) + d) by (nonlinear_arith);
                a = a + 1;
            }
            err = err + dy;
            x = x + sx;
        }
        if e2 <= dx {
            proof {
                assert(dx * (b + 2) == dx * (b + 1) + dx) by (nonlinear_arith);
                b = b + 1;
            }
            err = err + dx;
            y = y + sy;
        }
    }
}

/// The edges, row by row, of the contour made of the segments `segs`, on rows
/// `min_y..=max_y`.
fn contour_edges(segs: &Vec<(Point, Point)>, min_y: i32, max_y: i32) -> (res: EdgesByY)
    ensures
        rows_ok(rows_entries(res)),
        rows_entries(res) == contour_rows(segs@, min_y, max_y),
{
    let mut rows = new_rows();
    let mut i: usize = 0;
    while i < segs.len()
        invariant
            i <= segs@.len(),
            rows_ok(rows_entries(rows)),
            rows_entries(rows) == contour_rows(segs@.take(i as int), min_y, max_y),
        decreases segs@.len() - i,
    {
        let (p1, p2) = segs[i];
        add_line(&mut rows, i, p1, p2, min_y, max_y);
        proof {
            let t = segs@.take(i + 1);
            assert(t.drop_last() =~= segs@.take(i as int));
            assert(t[i as int] == segs@[i as int]);
        }
        i = i + 1;
    }
    assert(segs@.take(segs@.len() as int) =~= segs@);
    rows
}

/// The edges of a row that are not poisoned, as (leftmost x, rightmost x), in order.
fn clean_row(row: &RowEdges) -> (res: Vec<(i32, i32)>)
    ensures
        res@ == clean_edges(row_edge_entries(*row)),
{
    let n = row_len(row);
    let ghost s = row_edge_entries(*row);
    let mut res: Vec<(i32, i32)> = Vec::new();
    let mut j: usize = 0;
    while j < n
        invariant
            n == s.len(),
            s == row_edge_entries(*row),
            j <= n,
            res@ == clean_edges(s.take(j as int)),
        decreases n - j,
    {
        let (_, e) = edge_at(row, j);
        if !e.2 {
            res.push((e.0, e.1));
        }
        proof {
            let t = s.take(j + 1);
            assert(t.drop_last() =~= s.take(j as int));
        }
        j = j + 1;
    }
    assert(s.take(n as int) =~= s);
    res
}

proof fn lemma_insert_at(s: Seq<(i32, i32)>, e: (i32, i32), pos: int)
    requires
        0 <= pos <= s.len(),
        forall|j: int| 0 <= j < pos ==> (#[trigger] s[j]).0 <= e.0,
        pos < s.len() ==> s[pos].0 > e.0,
    ensures
        insert_by_x(s, e) == s.insert(pos, e),
    decreases s.len(),
{
    if s.len() == 0 {
        assert(s.insert(pos, e) =~= seq![e]);
    } else if pos == 0 {
        assert(s.insert(0, e) =~= seq![e] + s);
    } else {
        let r = s.drop_first();
        assert forall|j: int| 0 <= j < pos - 1 implies (#[trigger] r[j]).0 <= e.0 by {
            assert(r[j] == s[j + 1]);
        }
        if pos < s.len() {
            assert(r[pos - 1] == s[pos]);
        }
        lemma_insert_at(r, e, pos - 1);
        assert(s.insert(pos, e) =~= seq![s[0]] + r.insert(pos - 1, e));
    }
}

/// The edges stably sorted by leftmost x: each edge in turn goes before the first edge
/// already placed whose leftmost x is greater.
fn sort_edges(v: &Vec<(i32, i32)>) -> (res: Vec<(i32, i32)>)
    ensures
        res@ == sort_by_x(v@),
{
    let mut res: Vec<(i32, i32)> = Vec::new();
    let mut i: usize = 0;
    while i < v.len()
        invariant
            i <= v@.len(),
            res@ == sort_by_x(v@.take(i as int)),
        decreases v@.len() - i,
    {
        let e = v[i];
        let mut pos: usize = 0;
        while pos < res.len() && res[pos].0 <= e.0
            invariant
                pos <= res@.len(),
                forall|j: int| 0 <= j < pos ==> (#[trigger] res@[j]).0 <= e.0,
            decreases res@.len() - pos,
        {
            pos = pos + 1;
        }
        proof {
            lemma_insert_at(res@, e, pos as int);
            let t = v@.take(i + 1);
            assert(t.drop_last() =~= v@.take(i as int));
            assert(t.last() == e);
        }
        res.insert(pos, e);
        i = i + 1;
    }
    assert(v@.take(v@.len() as int) =~= v@);
    res
}

/// What filling the contour made of the segments `segs` paints within the box
/// `min_x..=max_x`, `min_y..=max_y`: on each row that the contour crosses, in the order in
/// which the segments first reach the rows, the spans `(y, first x, last x)` between the
/// crossings taken two by two from the left. A crossing is where a segment's pixels meet the
/// row, but for an end of the segment that leaves downward; a span may be empty (first x
/// after last x).
pub fn fill_contour(segs: &Vec<(Point, Point)>, min_x: i32, max_x: i32, min_y: i32, max_y: i32) -> (res: Vec<
    (i32, i32, i32),
>)
    ensures
        res@ == spec_fill_spans(segs@, min_x, max_x, min_y, max_y),
        forall|k: int|
            0 <= k < res@.len() ==> min_y <= (#[trigger] res@[k]).0 <= max_y && min_x <= res@[k].1 && res@[k].2 <= max_x,
{
    let rows = contour_edges(segs, min_y, max_y);
    let n = rows_len(&rows);
    let ghost rs = rows_entries(rows);
    let mut out: Vec<(i32, i32, i32)> = Vec::new();
    let mut i: usize = 0;
    while i < n
        invariant
            n == rs.len(),
            rs == rows_entries(rows),
            i <= n,
            out@ == spans_of_rows(rs.take(i as int), min_x, max_x),
        decreases n - i,
    {
        let (y, row) = row_at(&rows, i);
        let clean = clean_row(row);
        let sorted = sort_edges(&clean);
        let ghost base = out@;
        let ghost edges = sorted@;
        let mut k: usize = 0;
        while k + 1 < sorted.len()
            invariant
                edges == sorted@,
                k % 2 == 0,
                k <= edges.len(),
                out@ == base + row_spans(y, edges, min_x, max_x).take((k / 2) as int),
            decreases edges.len() - k,
        {
            let e1 = sorted[k];
            let e2 = sorted[k + 1];
            let from_x = if e1.0 > min_x {
                e1.0
            } else {
                min_x
            };
            let last_x = if e2.1 < max_x {
                e2.1
            } else {
                max_x
            };
            out.push((y, from_x, last_x));
            proof {
                let rsp = row_spans(y, edges, min_x, max_x);
                assert(rsp.take((k / 2) as int + 1) =~= rsp.take((k / 2) as int).push(rsp[(k / 2) as int]));
                assert(2 * (k / 2) == k);
            }
            k = k + 2;
        }
        proof {
            let rsp = row_spans(y, edges, min_x, max_x);
            assert(k / 2 == edges.len() / 2);
            assert(rsp.take((k / 2) as int) =~= rsp);
            let t = rs.take(i + 1);
            assert(t.drop_last() =~= rs.take(i as int));
            assert(t.last() == rs[i as int]);
        }
        i = i + 1;
    }
    assert(rs.take(n as int) =~= rs);
    proof {
        lemma_fill_spans_in_box(segs@, min_x, max_x, min_y, max_y);
    }
    out
}

} // verus!
