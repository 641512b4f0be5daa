//! The genotype-phenotype map: a phenotype id for every cell of the torus.
use vstd::prelude::*;
use crate::grid::{
    flat, lemma_flat_column, lemma_flat_in_bounds, lemma_flat_injective, lemma_flat_next, lemma_unflat, moved,
    ring_distance, step, torus_dist,
};
use crate::pop::zero_counts;
use crate::rng::random_below;
use crate::text::{is_numeral, lines_of, numeral_value, parse_numeral, split, split_bytes, text_lines};

verus! {

/// Phenotype ids over a `w` by `h` torus, stored flat (see `flat`), with
/// the distinct ids that occur.
pub struct Gpmap {
    pub w: usize,
    pub h: usize,
    pub gpmap: Vec<u64>,
    pub pid_list: Vec<u64>,
}

/// The columns laid end to end.
pub open spec fn flatten(cols: Seq<Seq<u64>>) -> Seq<u64>
    decreases cols.len(),
{
    if cols.len() == 0 {
        seq![]
    } else {
        flatten(cols.drop_last()) + cols.last()
    }
}

pub proof fn lemma_flatten(cols: Seq<Seq<u64>>, h: int)
    requires
        forall|x: int| 0 <= x < cols.len() ==> #[trigger] cols[x].len() == h,
    ensures
        flatten(cols).len() == cols.len() * h,
        forall|x: int, y: int|
            0 <= x < cols.len() && 0 <= y < h ==> flatten(cols)[#[trigger] flat(x, y, h)] == cols[x][y],
    decreases cols.len(),
{
    if cols.len() > 0 {
        let p = cols.drop_last();
        lemma_flatten(p, h);
        assert((p.len() + 1) * h == p.len() * h + h) by (nonlinear_arith);
        assert forall|x: int, y: int| 0 <= x < cols.len() && 0 <= y < h implies flatten(cols)[
            #[trigger] flat(x, y, h)] == cols[x][y] by {
            if x < p.len() {
                lemma_flat_in_bounds(x, y, p.len() as int, h);
            }
        }
    }
}

/// Why a map text was refused.
#[derive(PartialEq, Eq, Structural, Debug, Clone, Copy)]
pub enum MapError {
    /// A grid dimension is zero, or the grid has more cells than fit in memory.
    BadGrid,
    /// Not as many lines as the grid has rows.
    WrongRowCount,
    /// A line with not as many fields as the grid has columns.
    WrongFieldCount,
    /// A field that is not a decimal number that fits in `u64`.
    BadId,
}

/// The fields of line `y` of a map text: its comma-separated ids.
pub open spec fn map_fields(rows: Seq<Seq<u8>>, y: int) -> Seq<Seq<u8>> {
    split(rows[y], 44)
}

/// Whether the lines `rows` describe a map of `w` columns and `h` rows:
/// one line per row, one field per column on each, every field a decimal
/// number that fits in `u64`.
pub open spec fn map_text_ok(rows: Seq<Seq<u8>>, w: int, h: int) -> bool {
    &&& rows.len() == h
    &&& forall|y: int|
        0 <= y < rows.len() ==> {
            let f = #[trigger] map_fields(rows, y);
            &&& f.len() == w
            &&& forall|x: int|
                0 <= x < f.len() ==> is_numeral(#[trigger] f[x]) && numeral_value(f[x]) <= u64::MAX
        }
}

/// The ids of a map text in text order: line by line, field by field.
pub open spec fn text_order(rows: Seq<Seq<u8>>, w: int, h: int) -> Seq<u64> {
    Seq::new((w * h) as nat, |i: int| map_cell(rows, i % w, i / w) as u64)
}

/// The phenotype id that lines `rows` give cell `(x, y)`: field `x` of line
/// `y` (0 outside the text, which a well-formed text never leaves).
pub open spec fn map_cell(rows: Seq<Seq<u8>>, x: int, y: int) -> int {
    if 0 <= y < rows.len() && 0 <= x < map_fields(rows, y).len() {
        numeral_value(map_fields(rows, y)[x])
    } else {
        0
    }
}

/// The distinct values of `s`, in order of first appearance.
pub open spec fn first_appearances(s: Seq<u64>) -> Seq<u64>
    decreases s.len(),
{
    if s.len() == 0 {
        seq![]
    } else {
        let p = first_appearances(s.drop_last());
        if p.contains(s.last()) {
            p
        } else {
            p.push(s.last())
        }
    }
}

/// The distinct values of `cells`, in order of first appearance.
pub fn distinct_ids(cells: &Vec<u64>) -> (r: Vec<u64>)
    ensures
        r@ == first_appearances(cells@),
        r@.no_duplicates(),
        forall|p: u64| r@.contains(p) <==> cells@.contains(p),
{
    let mut ids: Vec<u64> = Vec::new();
    let mut i: usize = 0;
    while i < cells.len()
        invariant
            i <= cells.len(),
            ids@.no_duplicates(),
            ids@ == first_appearances(cells@.take(i as int)),
            forall|p: u64| ids@.contains(p) <==> cells@.take(i as int).contains(p),
        decreases cells.len() - i,
    {
        let p = cells[i];
        let ghost old_ids = ids@;
        let ghost seen = cells@.take(i as int);
        let ghost next = cells@.take(i + 1);
        assert(next =~= seen.push(p));
        assert(next.drop_last() =~= seen);
        if !holds(&ids, p) {
            ids.push(p);
        }
        proof {
            assert(next[next.len() - 1] == p);
            assert forall|q: u64| ids@.contains(q) <==> next.contains(q) by {
                if seen.contains(q) {
                    let k = choose|k: int| 0 <= k < seen.len() && seen[k] == q;
                    assert(next[k] == q);
                }
                if next.contains(q) && q != p {
                    let k = choose|k: int| 0 <= k < next.len() && next[k] == q;
                    assert(seen[k] == q);
                }
                if old_ids.contains(q) {
                    let k = choose|k: int| 0 <= k < old_ids.len() && old_ids[k] == q;
                    assert(ids@[k] == q);
                }
                if ids@.contains(q) && q != p {
                    let k = choose|k: int| 0 <= k < ids@.len() && ids@[k] == q;
                    assert(old_ids[k] == q);
                }
                if ids@.len() > old_ids.len() {
                    assert(ids@[ids@.len() - 1] == p);
                }
            }
        }
        i += 1;
    }
    assert(cells@.take(cells.len() as int) =~= cells@);
    ids
}

/// Whether `v` holds `p`.
pub fn holds(v: &Vec<u64>, p: u64) -> (r: bool)
    ensures
        r == v@.contains(p),
{
    let mut i: usize = 0;
    while i < v.len()
        invariant
            i <= v.len(),
            forall|j: int| 0 <= j < i ==> v[j] != p,
        decreases v.len() - i,
    {
        if v[i] == p {
            return true;
        }
        i += 1;
    }
    false
}

impl Gpmap {
    pub open spec fn wf(&self) -> bool {
        &&& self.w >= 1
        &&& self.h >= 1
        &&& self.gpmap.len() == self.w * self.h
        &&& self.pid_list@.no_duplicates()
        &&& forall|p: u64| self.pid_list@.contains(p) <==> self.gpmap@.contains(p)
    }

    /// Phenotype id of cell `(x, y)`.
    pub open spec fn pid(&self, x: int, y: int) -> u64 {
        self.gpmap@[flat(x, y, self.h as int)]
    }

    /// Number of the four neighbours of `(x, y)` whose phenotype differs
    /// from that of `(x, y)`.
    pub open spec fn diff_neighbours(&self, x: int, y: int) -> int {
        let w = self.w as int;
        let h = self.h as int;
        let p = self.pid(x, y);
        let n = moved(x, y, 0, w, h);
        let e = moved(x, y, 1, w, h);
        let s = moved(x, y, 2, w, h);
        let o = moved(x, y, 3, w, h);
        (if self.pid(n.0, n.1) != p { 1int } else { 0 }) + (if self.pid(e.0, e.1) != p { 1int } else { 0 })
            + (if self.pid(s.0, s.1) != p { 1int } else { 0 }) + (if self.pid(o.0, o.1) != p { 1int } else { 0 })
    }

    /// Number of differing neighbours among the first `k` directions.
    pub open spec fn diff_upto(&self, x: int, y: int, k: int) -> int
        decreases k,
    {
        if k <= 0 {
            0
        } else {
            let c = moved(x, y, k - 1, self.w as int, self.h as int);
            self.diff_upto(x, y, k - 1) + if self.pid(c.0, c.1) != self.pid(x, y) { 1int } else { 0 }
        }
    }

    /// Torus distances from `(x, y)` to each cell of phenotype `target`
    /// among the first `n` flat positions, in flat order.
    pub open spec fn dists_upto(&self, target: u64, x: int, y: int, n: int) -> Seq<usize>
        decreases n,
    {
        if n <= 0 {
            seq![]
        } else {
            let prev = self.dists_upto(target, x, y, n - 1);
            let j = n - 1;
            let h = self.h as int;
            if self.gpmap@[j] == target {
                prev.push(torus_dist(j / h, j % h, x, y, self.w as int, h) as usize)
            } else {
                prev
            }
        }
    }

    /// Builds the map from its columns, `columns[x][y]` the phenotype id of
    /// cell `(x, y)`. None unless there is at least one column, the first
    /// is not empty and all have the same length.
    pub fn from_columns(columns: &Vec<Vec<u64>>) -> (r: Option<Gpmap>)
        ensures
            r.is_some() <==> (columns.len() >= 1 && columns[0].len() >= 1 && forall|x: int|
                0 <= x < columns.len() ==> #[trigger] columns[x].len() == columns[0].len()),
            r.is_some() ==> {
                let g = r.unwrap();
                &&& g.wf()
                &&& g.w == columns.len()
                &&& g.h == columns[0].len()
                &&& forall|x: int, y: int|
                    0 <= x < g.w && 0 <= y < g.h ==> #[trigger] g.pid(x, y) == columns[x][y]
            },
    {
        if columns.len() == 0 || columns[0].len() == 0 {
            return None;
        }
        let w = columns.len();
        let h = columns[0].len();
        let mut x: usize = 0;
        while x < w
            invariant
                w == columns.len(),
                h == columns[0].len(),
                x <= w,
                forall|k: int| 0 <= k < x ==> #[trigger] columns[k].len() == h,
            decreases w - x,
        {
            if columns[x].len() != h {
                return None;
            }
            x += 1;
        }
        let ghost cols = columns@.map_values(|c: Vec<u64>| c@);
        let mut cells: Vec<u64> = Vec::new();
        let mut x: usize = 0;
        while x < w
            invariant
                w == columns.len(),
                h == columns[0].len(),
                x <= w,
                cols == columns@.map_values(|c: Vec<u64>| c@),
                forall|k: int| 0 <= k < w ==> #[trigger] columns[k].len() == h,
                cells@ == flatten(cols.take(x as int)),
            decreases w - x,
        {
            let col = &columns[x];
            let ghost before = cells@;
            let mut y: usize = 0;
            while y < h
                invariant
                    x < w,
                    col == columns[x as int],
                    col.len() == h,
                    y <= h,
                    cells@ == before + col@.take(y as int),
                decreases h - y,
            {
                let p = col[y];
                cells.push(p);
                assert(col@.take(y + 1) =~= col@.take(y as int).push(p));
                y += 1;
            }
            assert(col@.take(h as int) =~= col@);
            assert(cols.take(x + 1).drop_last() =~= cols.take(x as int));
            x += 1;
        }
        assert(cols.take(w as int) =~= cols);
        proof {
            assert(cols.len() == w);
            assert forall|k: int| 0 <= k < cols.len() implies #[trigger] cols[k].len() == h by {
                assert(cols[k] == columns[k]@);
                assert(columns[k].len() == h);
            }
            lemma_flatten(cols, h as int);
        }
        let pid_list = distinct_ids(&cells);
        Some(Gpmap { w, h, gpmap: cells, pid_list })
    }

    /// Reads a map of `w` columns and `h` rows from its text: line `y`
    /// holds the comma-separated ids of cells `(0, y)`, `(1, y)`, ..., `(w -
    /// 1, y)`, and there are exactly `h` lines.
    pub fn parse_gpmap(text: &[u8], w: usize, h: usize) -> (r: Result<Gpmap, MapError>)
        ensures
            r is Ok <==> (w >= 1 && h >= 1 && w * h <= usize::MAX && map_text_ok(text_lines(text@), w as int, h as int)),
            r is Ok ==> {
                let g = r->Ok_0;
                &&& g.wf()
                &&& g.w == w
                &&& g.h == h
                &&& forall|x: int, y: int|
                    0 <= x < w && 0 <= y < h ==> #[trigger] g.pid(x, y) == map_cell(text_lines(text@), x, y)
                &&& g.pid_list@ == first_appearances(text_order(text_lines(text@), w as int, h as int))
            },
            r == Err::<Gpmap, MapError>(MapError::BadGrid) ==> (w == 0 || h == 0 || w * h > usize::MAX),
            r == Err::<Gpmap, MapError>(MapError::WrongRowCount) ==> text_lines(text@).len() != h,
    {
        if w == 0 || h == 0 {
            return Err(MapError::BadGrid);
        }
        let n = match w.checked_mul(h) {
            Some(n) => n,
            None => {
                return Err(MapError::BadGrid);
            },
        };
        let rows = lines_of(text);
        let ghost rs = text_lines(text@);
        assert(rows@.len() == rs.len());
        if rows.len() != h {
            return Err(MapError::WrongRowCount);
        }
        let mut cells = zero_counts(n);
        let mut order: Vec<u64> = Vec::new();
        assert forall|x: int, yy: int| 0 <= x < w && 0 <= yy < h implies cells@[#[trigger] flat(x, yy, h as int)] == 0 by {
            lemma_flat_in_bounds(x, yy, w as int, h as int);
        }
        let mut y: usize = 0;
        while y < rows.len()
            invariant
                n == w * h,
                w >= 1,
                h >= 1,
                rs == text_lines(text@),
                rows@.map_values(|v: Vec<u8>| v@) == rs,
                rows.len() == h,
                y <= rows.len(),
                cells.len() == n,
                order.len() == y * w,
                forall|q: int| 0 <= q < order.len() ==> #[trigger] order[q] == map_cell(rs, q % w as int, q / w as int),
                forall|yy: int|
                    0 <= yy < y ==> {
                        let f = #[trigger] map_fields(rs, yy);
                        &&& f.len() == w
                        &&& forall|x: int|
                            0 <= x < f.len() ==> is_numeral(#[trigger] f[x]) && numeral_value(f[x]) <= u64::MAX
                    },
                forall|x: int, yy: int|
                    0 <= x < w && 0 <= yy < h ==> cells@[#[trigger] flat(x, yy, h as int)] == if yy < y {
                        map_cell(rs, x, yy)
                    } else {
                        0
                    },
            decreases rows.len() - y,
        {
            assert(rows@[y as int]@ == rs[y as int]);
            let fields = split_bytes(rows[y].as_slice(), 44);
            let ghost fs = map_fields(rs, y as int);
            assert(fields@.len() == fs.len());
            if fields.len() != w {
                return Err(MapError::WrongFieldCount);
            }
            let mut x: usize = 0;
            while x < fields.len()
                invariant
                    n == w * h,
                    w >= 1,
                    h >= 1,
                    y < h,
                    y < rs.len(),
                    rs == text_lines(text@),
                    fs == map_fields(rs, y as int),
                    fields@.map_values(|v: Vec<u8>| v@) == fs,
                    fields.len() == w,
                    x <= fields.len(),
                    cells.len() == n,
                    order.len() == y * w + x,
                    forall|q: int| 0 <= q < order.len() ==> #[trigger] order[q] == map_cell(rs, q % w as int, q / w as int),
                    forall|xx: int| 0 <= xx < x ==> is_numeral(#[trigger] fs[xx]) && numeral_value(fs[xx]) <= u64::MAX,
                    forall|xx: int, yy: int|
                        0 <= xx < w && 0 <= yy < h ==> cells@[#[trigger] flat(xx, yy, h as int)] == if yy < y || (yy
                            == y && xx < x) {
                            map_cell(rs, xx, yy)
                        } else {
                            0
                        },
                decreases fields.len() - x,
            {
                assert(fields@[x as int]@ == fs[x as int]);
                let v = match parse_numeral(&fields[x]) {
                    Some(v) => v,
                    None => {
                        proof {
                            let f = map_fields(rs, y as int);
                            assert(f[x as int] == fields@[x as int]@);
                            assert(!(is_numeral(f[x as int]) && numeral_value(f[x as int]) <= u64::MAX));
                            assert(!map_text_ok(rs, w as int, h as int)) by {
                                if map_text_ok(rs, w as int, h as int) {
                                    assert(0 <= y < rs.len());
                                    assert(0 <= x < f.len());
                                    assert(is_numeral(f[x as int]) && numeral_value(f[x as int]) <= u64::MAX);
                                }
                            }
                        }
                        return Err(MapError::BadId);
                    },
                };
                proof {
                    lemma_flat_in_bounds(x as int, y as int, w as int, h as int);
                    assert forall|xx: int, yy: int| 0 <= xx < w && 0 <= yy < h && flat(xx, yy, h as int) == flat(
                        x as int,
                        y as int,
                        h as int,
                    ) implies xx == x && yy == y by {
                        lemma_flat_injective(xx, yy, x as int, y as int, h as int);
                    }
                }
                let ghost before = cells@;
                cells.set(x * h + y, v);
                proof {
                    lemma_unflat((y * w + x) as int, y as int, x as int, w as int);
                    assert(v == map_cell(rs, x as int, y as int));
                }
                order.push(v);
                proof {
                    assert forall|xx: int, yy: int| 0 <= xx < w && 0 <= yy < h implies cells@[#[trigger] flat(
                        xx,
                        yy,
                        h as int,
                    )] == if yy < y || (yy == y && xx < x + 1) {
                        map_cell(rs, xx, yy)
                    } else {
                        0
                    } by {
                        lemma_flat_in_bounds(xx, yy, w as int, h as int);
                        if xx == x && yy == y {
                            assert(map_fields(rs, y as int)[x as int] == fs[x as int]);
                        } else {
                            if flat(xx, yy, h as int) == flat(x as int, y as int, h as int) {
                                lemma_flat_injective(xx, yy, x as int, y as int, h as int);
                            }
                            assert(cells@[flat(xx, yy, h as int)] == before[flat(xx, yy, h as int)]);
                        }
                    }
                }
                x += 1;
            }
            assert forall|xx: int, yy: int| 0 <= xx < w && 0 <= yy < h implies cells@[#[trigger] flat(xx, yy, h as int)]
                == if yy < y + 1 { map_cell(rs, xx, yy) } else { 0 } by {
                if yy == y && xx >= fields.len() {
                    assert(map_cell(rs, xx, yy) == 0);
                }
            }
            assert(order.len() == (y + 1) * w) by (nonlinear_arith)
                requires
                    order.len() == y * w + w,
            ;
            y += 1;
        }
        assert(order.len() == w * h) by (nonlinear_arith)
            requires
                order.len() == h * w,
        ;
        assert(order@ =~= text_order(rs, w as int, h as int));
        let pid_list = distinct_ids(&order);
        let g = Gpmap { w, h, gpmap: cells, pid_list };
        proof {
            assert forall|p: u64| order@.contains(p) <==> g.gpmap@.contains(p) by {
                if order@.contains(p) {
                    let q = choose|q: int| 0 <= q < order@.len() && order@[q] == p;
                    let a = q % w as int;
                    let b = q / w as int;
                    vstd::arithmetic::div_mod::lemma_fundamental_div_mod(q, w as int);
                    vstd::arithmetic::div_mod::lemma_mod_bound(q, w as int);
                    vstd::arithmetic::div_mod::lemma_div_pos_is_pos(q, w as int);
                    assert(q == flat(b, a, w as int)) by (nonlinear_arith)
                        requires
                            q == w * (q / w as int) + q % w as int,
                            b == q / w as int,
                            a == q % w as int,
                    ;
                    assert(h * w == w * h) by (nonlinear_arith);
                    lemma_flat_column(b, a, h as int, w as int);
                    lemma_flat_in_bounds(a, b, w as int, h as int);
                    assert(g.gpmap@[flat(a, b, h as int)] == p);
                }
                if g.gpmap@.contains(p) {
                    let i = choose|i: int| 0 <= i < g.gpmap@.len() && g.gpmap@[i] == p;
                    let a = i / h as int;
                    let b = i % h as int;
                    vstd::arithmetic::div_mod::lemma_fundamental_div_mod(i, h as int);
                    vstd::arithmetic::div_mod::lemma_mod_bound(i, h as int);
                    vstd::arithmetic::div_mod::lemma_div_pos_is_pos(i, h as int);
                    assert(i == flat(a, b, h as int)) by (nonlinear_arith)
                        requires
                            i == h * (i / h as int) + i % h as int,
                            a == i / h as int,
                            b == i % h as int,
                    ;
                    lemma_flat_column(a, b, w as int, h as int);
                    let q = flat(b, a, w as int);
                    lemma_flat_in_bounds(b, a, h as int, w as int);
                    assert(h * w == w * h) by (nonlinear_arith);
                    lemma_unflat(q, b, a, w as int);
                    assert(order@[q] == p);
                }
            }
        }
        assert forall|x: int, y: int| 0 <= x < w && 0 <= y < h implies #[trigger] g.pid(x, y) == map_cell(rs, x, y) by {
            if y >= rows.len() {
                assert(map_cell(rs, x, y) == 0);
            }
        }
        Ok(g)
    }

    /// Phenotype id of cell `(x, y)`.
    pub fn phenotype_at(&self, x: usize, y: usize) -> (r: u64)
        requires
            self.wf(),
            x < self.w,
            y < self.h,
        ensures
            r == self.pid(x as int, y as int),
    {
        proof {
            lemma_flat_in_bounds(x as int, y as int, self.w as int, self.h as int);
        }
        self.gpmap[x * self.h + y]
    }

    /// Every cell whose phenotype is one of `ids`, in flat order.
    pub fn coordinates_with_phenotype_in(&self, ids: &Vec<u64>) -> (r: Vec<(usize, usize)>)
        requires
            self.wf(),
        ensures
            forall|k: int|
                0 <= k < r.len() ==> {
                    let (x, y) = #[trigger] r[k];
                    x < self.w && y < self.h && ids@.contains(self.pid(x as int, y as int))
                },
            forall|x: usize, y: usize|
                x < self.w && y < self.h && ids@.contains(self.pid(x as int, y as int)) ==> r@.contains((x, y)),
    {
        let n = self.gpmap.len();
        let h = self.h;
        let mut found: Vec<(usize, usize)> = Vec::new();
        let mut i: usize = 0;
        let mut x: usize = 0;
        let mut y: usize = 0;
        while i < n
            invariant
                self.wf(),
                n == self.w * self.h,
                h == self.h,
                i <= n,
                y < h,
                i == flat(x as int, y as int, h as int),
                forall|k: int|
                    0 <= k < found.len() ==> {
                        let (a, b) = #[trigger] found[k];
                        a < self.w && b < self.h && ids@.contains(self.pid(a as int, b as int))
                    },
                forall|a: usize, b: usize|
                    b < h && flat(a as int, b as int, h as int) < i && ids@.contains(self.pid(a as int, b as int))
                        ==> found@.contains((a, b)),
            decreases n - i,
        {
            proof {
                lemma_flat_column(x as int, y as int, self.w as int, h as int);
            }
            let ghost old_found = found@;
            let hit = holds(ids, self.gpmap[i]);
            if hit {
                found.push((x, y));
                assert(found@[found@.len() - 1] == (x, y));
            }
            proof {
                lemma_flat_next(x as int, y as int, h as int);
                assert forall|a: usize, b: usize|
                    b < h && flat(a as int, b as int, h as int) < i + 1 && ids@.contains(self.pid(a as int, b as int))
                        implies found@.contains((a, b)) by {
                    if flat(a as int, b as int, h as int) == i {
                        lemma_flat_injective(a as int, b as int, x as int, y as int, h as int);
                        assert(hit);
                        assert(found@[found@.len() - 1] == (x, y));
                    } else {
                        assert(old_found.contains((a, b)));
                        let k = choose|k: int| 0 <= k < old_found.len() && old_found[k] == (a, b);
                        assert(found@[k] == (a, b));
                    }
                }
            }
            i += 1;
            if y + 1 == h {
                y = 0;
                x += 1;
            } else {
                y += 1;
            }
        }
        proof {
            assert forall|a: usize, b: usize|
                a < self.w && b < self.h && ids@.contains(self.pid(a as int, b as int)) implies found@.contains(
                (a, b)) by {
                lemma_flat_in_bounds(a as int, b as int, self.w as int, h as int);
            }
        }
        found
    }

    /// A cell drawn uniformly at random among those whose phenotype is one
    /// of `ids`; None when there is no such cell.
    pub fn get_random_xy(&self, ids: &Vec<u64>) -> (r: Option<(usize, usize)>)
        requires
            self.wf(),
        ensures
            r.is_none() <==> forall|x: int, y: int|
                0 <= x < self.w && 0 <= y < self.h ==> !ids@.contains(#[trigger] self.pid(x, y)),
            r.is_some() ==> {
                let (x, y) = r.unwrap();
                x < self.w && y < self.h && ids@.contains(self.pid(x as int, y as int))
            },
    {
        let found = self.coordinates_with_phenotype_in(ids);
        if found.len() == 0 {
            proof {
                assert forall|x: int, y: int| 0 <= x < self.w && 0 <= y < self.h implies !ids@.contains(
                    #[trigger] self.pid(x, y)) by {
                    if ids@.contains(self.pid(x, y)) {
                        assert(found@.contains((x as usize, y as usize)));
                    }
                }
            }
            return None;
        }
        let k = random_below(found.len() as u64) as usize;
        Some(found[k])
    }

    /// The fitness of every cell, `pfmap[p]` for a cell of phenotype `p`,
    /// stored flat; None when some phenotype of the map has no entry.
    pub fn get_gfmap(&self, pfmap: &Vec<u64>) -> (r: Option<Vec<u64>>)
        requires
            self.wf(),
        ensures
            r.is_none() <==> exists|i: int| 0 <= i < self.gpmap.len() && #[trigger] self.gpmap[i] >= pfmap.len(),
            r.is_some() ==> {
                let g = r.unwrap();
                &&& g.len() == self.gpmap.len()
                &&& forall|i: int| 0 <= i < g.len() ==> #[trigger] g[i] == pfmap[self.gpmap[i] as int]
            },
    {
        let n = self.gpmap.len();
        let mut g: Vec<u64> = Vec::new();
        let mut i: usize = 0;
        while i < n
            invariant
                n == self.gpmap.len(),
                i <= n,
                g.len() == i,
                forall|j: int| 0 <= j < i ==> self.gpmap[j] < pfmap.len(),
                forall|j: int| 0 <= j < i ==> #[trigger] g[j] == pfmap[self.gpmap[j] as int],
            decreases n - i,
        {
            let p = self.gpmap[i];
            if p >= pfmap.len() as u64 {
                return None;
            }
            g.push(pfmap[p as usize]);
            i += 1;
        }
        Some(g)
    }

    /// How many of the four neighbours of `(x, y)` have a phenotype other
    /// than that of `(x, y)`; the neighbour diversity is this over four.
    pub fn get_evol_at(&self, x: usize, y: usize) -> (r: u64)
        requires
            self.wf(),
            x < self.w,
            y < self.h,
        ensures
            r == self.diff_neighbours(x as int, y as int),
            r <= 4,
    {
        let p = self.phenotype_at(x, y);
        let mut count: u64 = 0;
        let mut dir: u64 = 0;
        while dir < 4
            invariant
                self.wf(),
                x < self.w,
                y < self.h,
                p == self.pid(x as int, y as int),
                dir <= 4,
                count <= dir,
                count == self.diff_upto(x as int, y as int, dir as int),
            decreases 4 - dir,
        {
            let (a, b) = step(x, y, dir, self.w, self.h);
            if self.phenotype_at(a, b) != p {
                count += 1;
            }
            dir += 1;
        }
        assert(self.diff_upto(x as int, y as int, 4) == self.diff_neighbours(x as int, y as int)) by {
            reveal_with_fuel(Gpmap::diff_upto, 5);
        }
        count
    }

    /// Distances on the torus from `(x, y)` to every cell of phenotype
    /// `target`, in flat order of those cells.
    pub fn mutation_distances(&self, target: u64, x: usize, y: usize) -> (r: Vec<usize>)
        requires
            self.wf(),
            x < self.w,
            y < self.h,
        ensures
            r@ == self.dists_upto(target, x as int, y as int, self.gpmap.len() as int),
    {
        let n = self.gpmap.len();
        let w = self.w;
        let h = self.h;
        let mut out: Vec<usize> = Vec::new();
        let mut i: usize = 0;
        let mut a: usize = 0;
        let mut b: usize = 0;
        while i < n
            invariant
                self.wf(),
                n == w * h,
                w == self.w,
                h == self.h,
                x < w,
                y < h,
                i <= n,
                b < h,
                i == flat(a as int, b as int, h as int),
                out@ == self.dists_upto(target, x as int, y as int, i as int),
            decreases n - i,
        {
            proof {
                lemma_flat_column(a as int, b as int, w as int, h as int);
                lemma_unflat(i as int, a as int, b as int, h as int);
            }
            if self.gpmap[i] == target {
                let dx = ring_distance(a, x, w);
                let dy = ring_distance(b, y, h);
                out.push(dx + dy);
            }
            proof {
                lemma_flat_next(a as int, b as int, h as int);
            }
            i += 1;
            if b + 1 == h {
                b = 0;
                a += 1;
            } else {
                b += 1;
            }
        }
        out
    }

    /// The distinct phenotype ids of the map.
    pub fn get_pid_list(&self) -> (r: &Vec<u64>)
        ensures
            r == &self.pid_list,
    {
        &self.pid_list
    }
}

} // verus!
