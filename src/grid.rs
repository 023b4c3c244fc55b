use std::collections::HashMap;
use vstd::prelude::*;
use crate::geometry::{Vec2i, in_world, dist_sq, floor_div, div_floor, WORLD_LIMIT};

verus! {

broadcast use vstd::std_specs::hash::group_hash_axioms;

/// Side of a grid cell, in world units.
pub const CHUNK_RESOLUTION: i64 = 20;

/// Shift that makes every reachable cell coordinate positive inside a key.
pub const CELL_OFFSET: i64 = 131072;

/// Number of distinct column values a key can hold.
pub const CELL_SPAN: i64 = 262144;

/// Row of the cell that holds a point (from its y coordinate).
pub open spec fn cell_row(p: Vec2i) -> int {
    floor_div(p.y as int, CHUNK_RESOLUTION as int)
}

/// Column of the cell that holds a point (from its x coordinate).
pub open spec fn cell_col(p: Vec2i) -> int {
    floor_div(p.x as int, CHUNK_RESOLUTION as int)
}

pub open spec fn cell_in_range(i: int) -> bool {
    -CELL_OFFSET < i < CELL_OFFSET
}

/// The map key of the cell at row `i`, column `j`.
pub open spec fn cell_key(i: int, j: int) -> u64 {
    ((i + CELL_OFFSET) * CELL_SPAN + (j + CELL_OFFSET)) as u64
}

/// The map key of the cell that holds a point.
pub open spec fn key_of(p: Vec2i) -> u64 {
    cell_key(cell_row(p), cell_col(p))
}

/// The bucket sequences of a grid map.
pub open spec fn cells_of(grid: Map<u64, Vec<u64>>) -> Map<u64, Seq<u64>> {
    grid.map_values(|v: Vec<u64>| v@)
}

/// `cells` with `e` taken out of the bucket at `k`, and that bucket dropped if it
/// becomes empty.
pub open spec fn drop_member(cells: Map<u64, Seq<u64>>, k: u64, e: u64) -> Map<u64, Seq<u64>> {
    let s = cells[k].remove(cells[k].index_of(e));
    if s.len() == 0 {
        cells.remove(k)
    } else {
        cells.insert(k, s)
    }
}

/// The bucket at `k`, or the empty sequence.
pub open spec fn bucket(cells: Map<u64, Seq<u64>>, k: u64) -> Seq<u64> {
    if cells.contains_key(k) {
        cells[k]
    } else {
        Seq::empty()
    }
}

/// The buckets after entity `e` is recorded in the cell with key `k`.
pub open spec fn moved_cells(
    cells: Map<u64, Seq<u64>>,
    assoc: Map<u64, u64>,
    e: u64,
    k: u64,
) -> Map<u64, Seq<u64>> {
    if assoc.contains_key(e) && assoc[e] == k {
        cells
    } else {
        let c1 = if assoc.contains_key(e) {
            drop_member(cells, assoc[e], e)
        } else {
            cells
        };
        c1.insert(k, bucket(c1, k).push(e))
    }
}

/// A uniform grid of square cells, each holding the ids of the entities whose
/// last recorded position lies in it.
pub struct CacheGrid {
    /// Cell key to the entities in that cell, in order of arrival.
    pub grid: HashMap<u64, Vec<u64>>,
    /// Entity to the key of the cell it is recorded in.
    pub associations: HashMap<u64, u64>,
    /// Last position recorded for each entity.
    pub positions: Ghost<Map<u64, Vec2i>>,
}

impl CacheGrid {
    pub open spec fn cells(&self) -> Map<u64, Seq<u64>> {
        cells_of(self.grid@)
    }

    /// Every recorded entity sits in exactly the bucket of its position's cell;
    /// buckets are non-empty and hold no entity twice.
    pub open spec fn wf(&self) -> bool {
        wf_parts(self.cells(), self.associations@, self.positions@)
    }

    /// An empty grid.
    pub fn new() -> (r: CacheGrid)
        ensures
            r.wf(),
            r.cells() == Map::<u64, Seq<u64>>::empty(),
            r.positions@ == Map::<u64, Vec2i>::empty(),
            r.associations@ == Map::<u64, u64>::empty(),
    {
        let r = CacheGrid {
            grid: HashMap::new(),
            associations: HashMap::new(),
            positions: Ghost(Map::empty()),
        };
        assert(r.cells() =~= Map::<u64, Seq<u64>>::empty());
        r
    }

    /// Records `entity` at `pos`: moves it to the bucket of `pos`'s cell unless it
    /// is already recorded there.
    pub fn update_entity(&mut self, entity: u64, pos: Vec2i)
        requires
            old(self).wf(),
            in_world(pos),
        ensures
            final(self).wf(),
            final(self).positions@ == old(self).positions@.insert(entity, pos),
            final(self).associations@ == old(self).associations@.insert(entity, key_of(pos)),
            final(self).cells() == moved_cells(
                old(self).cells(),
                old(self).associations@,
                entity,
                key_of(pos),
            ),
    {
        let i = div_floor(pos.y, CHUNK_RESOLUTION);
        let j = div_floor(pos.x, CHUNK_RESOLUTION);
        proof {
            lemma_point_cell_in_range(pos);
        }
        let key = key_at(i, j);
        let ghost cells0 = self.cells();
        let ghost assoc0 = self.associations@;
        let ghost pos0 = self.positions@;
        let old_key = self.associations.get(&entity);
        match old_key {
            Some(ok) => {
                let ok: u64 = *ok;
                if ok == key {
                    self.positions = Ghost(self.positions@.insert(entity, pos));
                    proof {
                        assert(self.associations@ =~= assoc0.insert(entity, key_of(pos)));
                    }
                    return;
                }
                let taken = self.grid.remove(&ok);
                match taken {
                    Some(b) => {
                        let mut b = b;
                        let idx = find_index(&b, entity);
                        proof {
                            let s = b@;
                            let c = s.index_of(entity);
                            assert(s[c] == entity && 0 <= c < s.len());
                            assert(s.no_duplicates());
                        }
                        b.remove(idx);
                        if b.len() > 0 {
                            self.grid.insert(ok, b);
                        }
                    },
                    None => {},
                }
            },
            None => {},
        }
        let ghost cells1 = self.cells();
        proof {
            if assoc0.contains_key(entity) {
                assert(cells1 =~= drop_member(cells0, assoc0[entity], entity));
            } else {
                assert(cells1 =~= cells0);
            }
        }
        let mut nb: Vec<u64> = match self.grid.remove(&key) {
            Some(b) => b,
            None => Vec::new(),
        };
        nb.push(entity);
        self.grid.insert(key, nb);
        self.associations.insert(entity, key);
        self.positions = Ghost(self.positions@.insert(entity, pos));
        proof {
            assert(self.cells() =~= cells1.insert(key, bucket(cells1, key).push(entity)));
            self.lemma_update_keeps_wf(cells0, assoc0, pos0, entity, pos);
        }
    }

    /// Forgets `entity`: takes it out of its bucket, dropping the bucket if it
    /// becomes empty.
    pub fn remove_entity(&mut self, entity: u64)
        requires
            old(self).wf(),
        ensures
            final(self).wf(),
            final(self).positions@ == old(self).positions@.remove(entity),
            final(self).associations@ == old(self).associations@.remove(entity),
            final(self).cells() == (if old(self).associations@.contains_key(entity) {
                drop_member(old(self).cells(), old(self).associations@[entity], entity)
            } else {
                old(self).cells()
            }),
    {
        let ghost cells0 = self.cells();
        let ghost assoc0 = self.associations@;
        let ghost pos0 = self.positions@;
        let old_key = self.associations.remove(&entity);
        match old_key {
            Some(ok) => {
                let taken = self.grid.remove(&ok);
                match taken {
                    Some(b) => {
                        let mut b = b;
                        let idx = find_index(&b, entity);
                        proof {
                            let s = b@;
                            let c = s.index_of(entity);
                            assert(s[c] == entity && 0 <= c < s.len());
                            assert(s.no_duplicates());
                        }
                        b.remove(idx);
                        if b.len() > 0 {
                            self.grid.insert(ok, b);
                        }
                    },
                    None => {},
                }
                proof {
                    assert(self.cells() =~= drop_member(cells0, ok, entity));
                }
            },
            None => {
                proof {
                    assert(self.cells() =~= cells0);
                }
            },
        }
        self.positions = Ghost(self.positions@.remove(entity));
        proof {
            lemma_drop_keeps_wf(cells0, assoc0, pos0, entity);
            assert(self.associations@ =~= assoc0.remove(entity));
        }
    }

    /// The entities recorded in every cell that meets the square of side
    /// `2 * radius` centred on `position`, cell by cell, rows first.
    pub fn get_nearby_entities(&self, position: Vec2i, radius: i64) -> (result: Vec<u64>)
        requires
            self.wf(),
            in_world(position),
            0 <= radius <= WORLD_LIMIT,
        ensures
            result@ == query_result(self.cells(), position, radius as int),
            result@.no_duplicates(),
            forall|e: u64|
                #![trigger self.positions@[e]]
                self.positions@.contains_key(e) && dist_sq(self.positions@[e], position) <= radius
                    * radius ==> result@.contains(e),
    {
        let ghost cells = self.cells();
        let ib = div_floor(position.y - radius, CHUNK_RESOLUTION);
        let jb = div_floor(position.x - radius, CHUNK_RESOLUTION);
        let span: i64 = (2 * radius + CHUNK_RESOLUTION - 1) / CHUNK_RESOLUTION;
        proof {
            lemma_scan_bounds(position, radius as int);
        }
        let mut result: Vec<u64> = Vec::new();
        let mut a: i64 = 0;
        while a <= span
            invariant
                0 <= a <= span + 1,
                span == scan_span(radius as int),
                ib == floor_div(position.y - radius, CHUNK_RESOLUTION as int),
                jb == floor_div(position.x - radius, CHUNK_RESOLUTION as int),
                cell_in_range(ib as int),
                cell_in_range(jb as int),
                cell_in_range(ib + span),
                cell_in_range(jb + span),
                cells == self.cells(),
                result@ == rect_scan(cells, ib as int, a as nat, jb as int, (span + 1) as nat),
            decreases span + 1 - a,
        {
            let i: i64 = ib + a;
            let mut b: i64 = 0;
            while b <= span
                invariant
                    0 <= a <= span,
                    0 <= b <= span + 1,
                    i == ib + a,
                    cell_in_range(ib as int),
                    cell_in_range(jb as int),
                    cell_in_range(ib + span),
                    cell_in_range(jb + span),
                    cells == self.cells(),
                    result@ == rect_scan(cells, ib as int, a as nat, jb as int, (span + 1) as nat)
                        + row_scan(cells, i as int, jb as int, b as nat),
                decreases span + 1 - b,
            {
                let j: i64 = jb + b;
                let key = key_at(i, j);
                let ghost before = result@;
                match self.grid.get(&key) {
                    Some(v) => {
                        let mut t: usize = 0;
                        while t < v.len()
                            invariant
                                0 <= t <= v@.len(),
                                result@ == before + v@.subrange(0, t as int),
                            decreases v@.len() - t,
                        {
                            result.push(v[t]);
                            t = t + 1;
                            proof {
                                assert(v@.subrange(0, t as int) =~= v@.subrange(0, t - 1).push(
                                    v@[t - 1],
                                ));
                            }
                        }
                        proof {
                            assert(v@.subrange(0, v@.len() as int) =~= v@);
                            assert(bucket(cells, key) == v@);
                        }
                    },
                    None => {
                        proof {
                            assert(bucket(cells, key) =~= Seq::<u64>::empty());
                            assert(result@ =~= before + bucket(cells, key));
                        }
                    },
                }
                proof {
                    let ra = rect_scan(cells, ib as int, a as nat, jb as int, (span + 1) as nat);
                    let rb = row_scan(cells, i as int, jb as int, b as nat);
                    assert(row_scan(cells, i as int, jb as int, (b + 1) as nat) == rb + bucket(
                        cells,
                        cell_key(i as int, jb + b),
                    ));
                    assert(result@ =~= ra + row_scan(cells, i as int, jb as int, (b + 1) as nat));
                }
                b = b + 1;
            }
            proof {
                assert(result@ =~= rect_scan(
                    cells,
                    ib as int,
                    (a + 1) as nat,
                    jb as int,
                    (span + 1) as nat,
                ));
            }
            a = a + 1;
        }
        proof {
            lemma_rect_scan_unique(self, ib as int, (span + 1) as nat, jb as int, (span + 1) as nat);
            assert forall|e: u64|
                #![trigger self.positions@[e]]
                self.positions@.contains_key(e) && dist_sq(self.positions@[e], position) <= radius
                    * radius implies result@.contains(e) by {
                lemma_query_finds_within_radius(self, position, radius as int, e);
            }
        }
        result
    }

    proof fn lemma_update_keeps_wf(
        &self,
        cells0: Map<u64, Seq<u64>>,
        assoc0: Map<u64, u64>,
        pos0: Map<u64, Vec2i>,
        e: u64,
        p: Vec2i,
    )
        requires
            wf_parts(cells0, assoc0, pos0),
            in_world(p),
            !(assoc0.contains_key(e) && assoc0[e] == key_of(p)),
            self.cells() == moved_cells(cells0, assoc0, e, key_of(p)),
            self.associations@ == assoc0.insert(e, key_of(p)),
            self.positions@ == pos0.insert(e, p),
        ensures
            self.wf(),
    {
        let k = key_of(p);
        let cells = self.cells();
        let assoc = self.associations@;
        let c1 = if assoc0.contains_key(e) {
            drop_member(cells0, assoc0[e], e)
        } else {
            cells0
        };
        // e sits in no bucket of c1
        assert forall|kk: u64, n: int| c1.contains_key(kk) && 0 <= n < c1[kk].len() implies
            c1[kk][n] != e && assoc0.contains_key(c1[kk][n]) && assoc0[c1[kk][n]] == kk by {
            if assoc0.contains_key(e) {
                let ok = assoc0[e];
                if kk == ok {
                    let s = cells0[ok];
                    let idx = s.index_of(e);
                    assert(s[idx] == e);
                    if n < idx {
                        assert(c1[kk][n] == s[n]);
                    } else {
                        assert(c1[kk][n] == s[n + 1]);
                    }
                } else {
                    assert(c1[kk] == cells0[kk]);
                }
            } else {
                assert(c1[kk] == cells0[kk]);
            }
        }
        assert forall|kk: u64| #[trigger] c1.contains_key(kk) implies c1[kk].len() > 0
            && c1[kk].no_duplicates() by {
            if assoc0.contains_key(e) && kk == assoc0[e] {
                let s = cells0[kk];
                let idx = s.index_of(e);
                assert forall|a: int, b: int|
                    0 <= a < c1[kk].len() && 0 <= b < c1[kk].len() && a != b implies c1[kk][a]
                    != c1[kk][b] by {
                    let ia = if a < idx { a } else { a + 1 };
                    let ib = if b < idx { b } else { b + 1 };
                    assert(c1[kk][a] == s[ia]);
                    assert(c1[kk][b] == s[ib]);
                }
            } else {
                assert(c1[kk] == cells0[kk]);
            }
        }
        // the entities other than e keep their bucket in c1
        assert forall|x: u64| #[trigger] assoc0.contains_key(x) && x != e implies c1.contains_key(
            assoc0[x],
        ) && c1[assoc0[x]].contains(x) by {
            let kx = assoc0[x];
            assert(cells0[kx].contains(x));
            let jx = choose|jx: int| 0 <= jx < cells0[kx].len() && cells0[kx][jx] == x;
            if assoc0.contains_key(e) && kx == assoc0[e] {
                let s = cells0[kx];
                let idx = s.index_of(e);
                assert(jx != idx);
                let m = if jx < idx { jx } else { jx - 1 };
                assert(s.remove(idx)[m] == x);
                assert(s.remove(idx).len() > 0);
            }
        }
        assert forall|x: u64| #[trigger] assoc.contains_key(x) implies in_world(self.positions@[x])
            && assoc[x] == key_of(self.positions@[x]) && cells.contains_key(assoc[x])
            && cells[assoc[x]].contains(x) by {
            if x == e {
                assert(cells[k] == bucket(c1, k).push(e));
                assert(cells[k][bucket(c1, k).len() as int] == e);
            } else {
                let kx = assoc0[x];
                let jx = choose|jx: int| 0 <= jx < c1[kx].len() && c1[kx][jx] == x;
                if kx == k {
                    assert(cells[k][jx] == x);
                } else {
                    assert(cells[kx] == c1[kx]);
                }
            }
        }
        assert forall|kk: u64| #[trigger] cells.contains_key(kk) implies cells[kk].len() > 0
            && cells[kk].no_duplicates() by {
            if kk == k {
                let s = bucket(c1, k);
                assert forall|a: int, b: int|
                    0 <= a < cells[kk].len() && 0 <= b < cells[kk].len() && a != b implies cells[kk][a]
                    != cells[kk][b] by {
                    if a < s.len() && b < s.len() {
                    } else if a < s.len() {
                        assert(c1[k][a] != e);
                    } else {
                        assert(c1[k][b] != e);
                    }
                }
            }
        }
        assert forall|kk: u64, n: int| cells.contains_key(kk) && 0 <= n < cells[kk].len() implies
            assoc.contains_key(#[trigger] cells[kk][n]) && assoc[cells[kk][n]] == kk by {
            if kk == k {
                let s = bucket(c1, k);
                if n < s.len() {
                    assert(cells[kk][n] == c1[k][n]);
                }
            } else {
                assert(cells[kk] == c1[kk]);
            }
        }
        assert(assoc.dom() =~= self.positions@.dom());
    }
}

/// Number of cells, beyond the first, that a scan of the given radius covers
/// along each axis: the ceiling of `2 * radius / CHUNK_RESOLUTION`.
pub open spec fn scan_span(radius: int) -> int {
    (2 * radius + CHUNK_RESOLUTION - 1) / (CHUNK_RESOLUTION as int)
}

/// The buckets of row `i`, columns `jb .. jb + n`, one after the other.
pub open spec fn row_scan(cells: Map<u64, Seq<u64>>, i: int, jb: int, n: nat) -> Seq<u64>
    decreases n,
{
    if n == 0 {
        Seq::empty()
    } else {
        row_scan(cells, i, jb, (n - 1) as nat) + bucket(cells, cell_key(i, jb + n - 1))
    }
}

/// The buckets of rows `ib .. ib + m`, columns `jb .. jb + n`, row by row.
pub open spec fn rect_scan(cells: Map<u64, Seq<u64>>, ib: int, m: nat, jb: int, n: nat) -> Seq<u64>
    decreases m,
{
    if m == 0 {
        Seq::empty()
    } else {
        rect_scan(cells, ib, (m - 1) as nat, jb, n) + row_scan(cells, ib + m - 1, jb, n)
    }
}

/// What a neighbourhood query around `p` with radius `r` returns.
pub open spec fn query_result(cells: Map<u64, Seq<u64>>, p: Vec2i, r: int) -> Seq<u64> {
    let span = scan_span(r);
    rect_scan(
        cells,
        floor_div(p.y - r, CHUNK_RESOLUTION as int),
        (span + 1) as nat,
        floor_div(p.x - r, CHUNK_RESOLUTION as int),
        (span + 1) as nat,
    )
}

/// Whether the cell at row `i`, column `j` is one that a query around `p` with
/// radius `r` scans.
pub open spec fn scanned(p: Vec2i, r: int, i: int, j: int) -> bool {
    let ib = floor_div(p.y - r, CHUNK_RESOLUTION as int);
    let jb = floor_div(p.x - r, CHUNK_RESOLUTION as int);
    ib <= i <= ib + scan_span(r) && jb <= j <= jb + scan_span(r)
}

pub proof fn lemma_scan_bounds(p: Vec2i, r: int)
    requires
        in_world(p),
        0 <= r <= WORLD_LIMIT,
    ensures
        cell_in_range(floor_div(p.y - r, CHUNK_RESOLUTION as int)),
        cell_in_range(floor_div(p.x - r, CHUNK_RESOLUTION as int)),
        cell_in_range(floor_div(p.y - r, CHUNK_RESOLUTION as int) + scan_span(r)),
        cell_in_range(floor_div(p.x - r, CHUNK_RESOLUTION as int) + scan_span(r)),
        0 <= scan_span(r) <= 104858,
{
    lemma_floor_plus_ceil(p.y - r, r);
    lemma_floor_plus_ceil(p.x - r, r);
    vstd::arithmetic::div_mod::lemma_div_is_ordered(-2 * WORLD_LIMIT, p.y - r, 20);
    vstd::arithmetic::div_mod::lemma_div_is_ordered(-2 * WORLD_LIMIT, p.x - r, 20);
    vstd::arithmetic::div_mod::lemma_div_is_ordered(p.y + r, 2 * WORLD_LIMIT, 20);
    vstd::arithmetic::div_mod::lemma_div_is_ordered(p.x + r, 2 * WORLD_LIMIT, 20);
    vstd::arithmetic::div_mod::lemma_div_is_ordered(2 * r + 19, 2 * WORLD_LIMIT + 19, 20);
    vstd::arithmetic::div_mod::lemma_div_pos_is_pos(2 * r + 19, 20);
    assert((-2097152int) / 20 == -104858);
    assert(2097152int / 20 == 104857);
    assert(2097171int / 20 == 104858);
}

/// The cell of `a + 2r` is at most `scan_span(r)` cells past the cell of `a`.
pub proof fn lemma_floor_plus_ceil(a: int, r: int)
    requires
        r >= 0,
    ensures
        floor_div(a + 2 * r, CHUNK_RESOLUTION as int) <= floor_div(a, CHUNK_RESOLUTION as int)
            + scan_span(r),
{
    let c = CHUNK_RESOLUTION as int;
    let qa = a / c;
    let cb = (2 * r + c - 1) / c;
    vstd::arithmetic::div_mod::lemma_fundamental_div_mod(a, c);
    vstd::arithmetic::div_mod::lemma_mod_bound(a, c);
    vstd::arithmetic::div_mod::lemma_fundamental_div_mod(2 * r + c - 1, c);
    vstd::arithmetic::div_mod::lemma_mod_bound(2 * r + c - 1, c);
    vstd::arithmetic::div_mod::lemma_fundamental_div_mod(a + 2 * r, c);
    vstd::arithmetic::div_mod::lemma_mod_bound(a + 2 * r, c);
    let q = (a + 2 * r) / c;
    assert(c * q <= a + 2 * r);
    assert(2 * r <= c * cb);
    assert(a < c * qa + c);
    assert(c * q < c * (qa + cb + 1)) by (nonlinear_arith)
        requires
            c * q <= a + 2 * r,
            2 * r <= c * cb,
            a < c * qa + c,
    ;
    assert(q < qa + cb + 1) by (nonlinear_arith)
        requires
            c * q < c * (qa + cb + 1),
            c > 0,
    ;
}

/// An entity recorded within `r` of `p` lies in a cell that a query scans.
pub proof fn lemma_within_radius_is_scanned(p: Vec2i, q: Vec2i, r: int)
    requires
        0 <= r,
        dist_sq(q, p) <= r * r,
    ensures
        scanned(p, r, cell_row(q), cell_col(q)),
{
    lemma_coord_within(q.y - p.y, q.x - p.x, r);
    lemma_coord_within(q.x - p.x, q.y - p.y, r);
    let c = CHUNK_RESOLUTION as int;
    vstd::arithmetic::div_mod::lemma_div_is_ordered(p.y - r, q.y as int, c);
    vstd::arithmetic::div_mod::lemma_div_is_ordered(q.y as int, p.y + r, c);
    vstd::arithmetic::div_mod::lemma_div_is_ordered(p.x - r, q.x as int, c);
    vstd::arithmetic::div_mod::lemma_div_is_ordered(q.x as int, p.x + r, c);
    lemma_floor_plus_ceil(p.y - r, r);
    lemma_floor_plus_ceil(p.x - r, r);
}

proof fn lemma_coord_within(d: int, e: int, r: int)
    requires
        0 <= r,
        d * d + e * e <= r * r,
    ensures
        -r <= d <= r,
{
    assert(e * e >= 0) by (nonlinear_arith);
    if d > r {
        assert(d * d > r * r) by (nonlinear_arith)
            requires
                d > r,
                r >= 0,
        ;
    }
    if d < -r {
        assert(d * d > r * r) by (nonlinear_arith)
            requires
                d < -r,
                r >= 0,
        ;
    }
}

/// A row scan holds every member of the buckets it covers.
pub proof fn lemma_row_scan_contains(cells: Map<u64, Seq<u64>>, i: int, jb: int, n: nat, j: int, x: u64)
    requires
        jb <= j < jb + n,
        bucket(cells, cell_key(i, j)).contains(x),
    ensures
        row_scan(cells, i, jb, n).contains(x),
    decreases n,
{
    let prev = row_scan(cells, i, jb, (n - 1) as nat);
    let last = bucket(cells, cell_key(i, jb + n - 1));
    if j == jb + n - 1 {
        let t = choose|t: int| 0 <= t < last.len() && last[t] == x;
        assert((prev + last)[prev.len() + t] == x);
    } else {
        lemma_row_scan_contains(cells, i, jb, (n - 1) as nat, j, x);
        let t = choose|t: int| 0 <= t < prev.len() && prev[t] == x;
        assert((prev + last)[t] == x);
    }
}

/// A rectangle scan holds every member of the buckets it covers.
pub proof fn lemma_rect_scan_contains(
    cells: Map<u64, Seq<u64>>,
    ib: int,
    m: nat,
    jb: int,
    n: nat,
    i: int,
    j: int,
    x: u64,
)
    requires
        ib <= i < ib + m,
        jb <= j < jb + n,
        bucket(cells, cell_key(i, j)).contains(x),
    ensures
        rect_scan(cells, ib, m, jb, n).contains(x),
    decreases m,
{
    let prev = rect_scan(cells, ib, (m - 1) as nat, jb, n);
    let last = row_scan(cells, ib + m - 1, jb, n);
    if i == ib + m - 1 {
        lemma_row_scan_contains(cells, i, jb, n, j, x);
        let t = choose|t: int| 0 <= t < last.len() && last[t] == x;
        assert((prev + last)[prev.len() + t] == x);
    } else {
        lemma_rect_scan_contains(cells, ib, (m - 1) as nat, jb, n, i, j, x);
        let t = choose|t: int| 0 <= t < prev.len() && prev[t] == x;
        assert((prev + last)[t] == x);
    }
}

/// A query never misses an entity recorded within its radius: whatever updates
/// built the grid, every entity whose last recorded position lies within `r` of
/// `p` is in the result.
pub proof fn lemma_query_finds_within_radius(g: &CacheGrid, p: Vec2i, r: int, e: u64)
    requires
        g.wf(),
        0 <= r,
        g.positions@.contains_key(e),
        dist_sq(g.positions@[e], p) <= r * r,
    ensures
        query_result(g.cells(), p, r).contains(e),
{
    let q = g.positions@[e];
    lemma_within_radius_is_scanned(p, q, r);
    assert(g.associations@.contains_key(e));
    let span = scan_span(r);
    lemma_rect_scan_contains(
        g.cells(),
        floor_div(p.y - r, CHUNK_RESOLUTION as int),
        (span + 1) as nat,
        floor_div(p.x - r, CHUNK_RESOLUTION as int),
        (span + 1) as nat,
        cell_row(q),
        cell_col(q),
        e,
    );
}

/// Whatever a row scan holds lies in one of the buckets it covers.
pub proof fn lemma_row_scan_member(cells: Map<u64, Seq<u64>>, i: int, jb: int, n: nat, x: u64)
    requires
        row_scan(cells, i, jb, n).contains(x),
    ensures
        exists|j: int| jb <= j < jb + n && #[trigger] bucket(cells, cell_key(i, j)).contains(x),
    decreases n,
{
    let prev = row_scan(cells, i, jb, (n - 1) as nat);
    let last = bucket(cells, cell_key(i, jb + n - 1));
    let t = choose|t: int| 0 <= t < (prev + last).len() && (prev + last)[t] == x;
    if t < prev.len() {
        assert(prev[t] == x);
        lemma_row_scan_member(cells, i, jb, (n - 1) as nat, x);
    } else {
        assert(last[t - prev.len()] == x);
        assert(bucket(cells, cell_key(i, jb + n - 1)).contains(x));
    }
}

/// Whatever a rectangle scan holds lies in one of the buckets it covers.
pub proof fn lemma_rect_scan_member(
    cells: Map<u64, Seq<u64>>,
    ib: int,
    m: nat,
    jb: int,
    n: nat,
    x: u64,
)
    requires
        rect_scan(cells, ib, m, jb, n).contains(x),
    ensures
        exists|i: int, j: int|
            ib <= i < ib + m && jb <= j < jb + n && #[trigger] bucket(
                cells,
                cell_key(i, j),
            ).contains(x),
    decreases m,
{
    let prev = rect_scan(cells, ib, (m - 1) as nat, jb, n);
    let last = row_scan(cells, ib + m - 1, jb, n);
    let t = choose|t: int| 0 <= t < (prev + last).len() && (prev + last)[t] == x;
    if t < prev.len() {
        assert(prev[t] == x);
        lemma_rect_scan_member(cells, ib, (m - 1) as nat, jb, n, x);
    } else {
        assert(last[t - prev.len()] == x);
        lemma_row_scan_member(cells, ib + m - 1, jb, n, x);
        let j = choose|j: int|
            jb <= j < jb + n && #[trigger] bucket(cells, cell_key(ib + m - 1, j)).contains(x);
        assert(bucket(cells, cell_key(ib + m - 1, j)).contains(x));
    }
}

/// Two grids whose buckets hold the same members answer every query with the
/// same members.
pub proof fn lemma_same_buckets_same_query(
    c1: Map<u64, Seq<u64>>,
    c2: Map<u64, Seq<u64>>,
    p: Vec2i,
    r: int,
    x: u64,
)
    requires
        forall|k: u64| #[trigger] bucket(c1, k).contains(x) <==> bucket(c2, k).contains(x),
    ensures
        query_result(c1, p, r).contains(x) <==> query_result(c2, p, r).contains(x),
{
    let span = scan_span(r);
    let ib = floor_div(p.y - r, CHUNK_RESOLUTION as int);
    let jb = floor_div(p.x - r, CHUNK_RESOLUTION as int);
    if query_result(c1, p, r).contains(x) {
        lemma_rect_scan_member(c1, ib, (span + 1) as nat, jb, (span + 1) as nat, x);
        let (i, j) = choose|i: int, j: int|
            ib <= i < ib + (span + 1) as nat && jb <= j < jb + (span + 1) as nat
                && #[trigger] bucket(c1, cell_key(i, j)).contains(x);
        assert(bucket(c2, cell_key(i, j)).contains(x));
        lemma_rect_scan_contains(c2, ib, (span + 1) as nat, jb, (span + 1) as nat, i, j, x);
    }
    if query_result(c2, p, r).contains(x) {
        lemma_rect_scan_member(c2, ib, (span + 1) as nat, jb, (span + 1) as nat, x);
        let (i, j) = choose|i: int, j: int|
            ib <= i < ib + (span + 1) as nat && jb <= j < jb + (span + 1) as nat
                && #[trigger] bucket(c2, cell_key(i, j)).contains(x);
        assert(bucket(c1, cell_key(i, j)).contains(x));
        lemma_rect_scan_contains(c1, ib, (span + 1) as nat, jb, (span + 1) as nat, i, j, x);
    }
}

/// Removing an entity and recording it again at the position it had leaves
/// every query with the same members: the buckets that `remove_entity` and then
/// `update_entity` produce answer each query as the grid did before.
pub proof fn lemma_readd_same_position_keeps_queries(g: &CacheGrid, e: u64, p: Vec2i, r: int, x: u64)
    requires
        g.wf(),
        g.positions@.contains_key(e),
    ensures
        ({
            let removed = drop_member(g.cells(), g.associations@[e], e);
            let readded = moved_cells(
                removed,
                g.associations@.remove(e),
                e,
                key_of(g.positions@[e]),
            );
            query_result(readded, p, r).contains(x) <==> query_result(g.cells(), p, r).contains(x)
        }),
{
    let cells = g.cells();
    let k = g.associations@[e];
    assert(k == key_of(g.positions@[e]));
    let removed = drop_member(cells, k, e);
    let readded = moved_cells(removed, g.associations@.remove(e), e, k);
    let s = cells[k];
    let idx = s.index_of(e);
    assert(s.contains(e));
    assert(0 <= idx < s.len() && s[idx] == e);
    assert(readded == removed.insert(k, bucket(removed, k).push(e)));
    assert(bucket(removed, k) =~= s.remove(idx));
    assert forall|kk: u64| #[trigger] bucket(readded, kk).contains(x) <==> bucket(cells, kk).contains(x) by {
        if kk == k {
            let t = s.remove(idx).push(e);
            assert(bucket(readded, kk) == t);
            if t.contains(x) {
                let n = choose|n: int| 0 <= n < t.len() && t[n] == x;
                if n == t.len() - 1 {
                    assert(s[idx] == x);
                } else if n < idx {
                    assert(s[n] == x);
                } else {
                    assert(s[n + 1] == x);
                }
            }
            if s.contains(x) {
                let n = choose|n: int| 0 <= n < s.len() && s[n] == x;
                if n == idx {
                    assert(t[t.len() - 1] == x);
                } else if n < idx {
                    assert(t[n] == x);
                } else {
                    assert(t[n - 1] == x);
                }
            }
        } else {
            assert(bucket(readded, kk) == bucket(cells, kk));
        }
    }
    lemma_same_buckets_same_query(readded, cells, p, r, x);
}

/// Row of the cell a key names.
pub open spec fn key_row(k: u64) -> int {
    (k as int) / (CELL_SPAN as int) - CELL_OFFSET
}

/// Column of the cell a key names.
pub open spec fn key_col(k: u64) -> int {
    (k as int) % (CELL_SPAN as int) - CELL_OFFSET
}

/// A key gives back the row and column it was made from.
pub proof fn lemma_cell_key_parts(i: int, j: int)
    requires
        cell_in_range(i),
        cell_in_range(j),
    ensures
        key_row(cell_key(i, j)) == i,
        key_col(cell_key(i, j)) == j,
{
    let a = i + CELL_OFFSET;
    let b = j + CELL_OFFSET;
    assert(0 <= a * CELL_SPAN <= CELL_SPAN * CELL_SPAN) by (nonlinear_arith)
        requires
            0 < a < CELL_SPAN,
    ;
    let k = a * CELL_SPAN + b;
    assert(cell_key(i, j) as int == k);
    vstd::arithmetic::div_mod::lemma_fundamental_div_mod_converse(k, CELL_SPAN as int, a, b);
}

/// A row scan holds no entity twice, and each entity it holds is recorded in
/// one of the row's scanned cells.
pub proof fn lemma_row_scan_unique(g: &CacheGrid, i: int, jb: int, n: nat)
    requires
        g.wf(),
        cell_in_range(i),
        cell_in_range(jb),
        cell_in_range(jb + n),
    ensures
        row_scan(g.cells(), i, jb, n).no_duplicates(),
        forall|t: int|
            #![trigger row_scan(g.cells(), i, jb, n)[t]]
            0 <= t < row_scan(g.cells(), i, jb, n).len() ==> g.associations@.contains_key(
                row_scan(g.cells(), i, jb, n)[t],
            ) && key_row(g.associations@[row_scan(g.cells(), i, jb, n)[t]]) == i && jb <= key_col(
                g.associations@[row_scan(g.cells(), i, jb, n)[t]],
            ) < jb + n,
    decreases n,
{
    let cells = g.cells();
    let assoc = g.associations@;
    if n > 0 {
        lemma_row_scan_unique(g, i, jb, (n - 1) as nat);
        let prev = row_scan(cells, i, jb, (n - 1) as nat);
        let k = cell_key(i, jb + n - 1);
        let last = bucket(cells, k);
        lemma_cell_key_parts(i, jb + n - 1);
        assert forall|t: int| 0 <= t < last.len() implies assoc.contains_key(#[trigger] last[t])
            && assoc[last[t]] == k by {
            assert(cells.contains_key(k));
        }
        assert(last.no_duplicates()) by {
            if cells.contains_key(k) {
            }
        }
        assert forall|a: int, b: int| 0 <= a < prev.len() && 0 <= b < last.len() implies prev[a]
            != last[b] by {
            assert(assoc[last[b]] == k);
            assert(key_col(assoc[prev[a]]) < jb + n - 1);
        }
        vstd::seq_lib::lemma_no_dup_in_concat(prev, last);
        let all = prev + last;
        assert(row_scan(cells, i, jb, n) == all);
        assert forall|t: int| 0 <= t < all.len() implies assoc.contains_key(#[trigger] all[t])
            && key_row(assoc[all[t]]) == i && jb <= key_col(assoc[all[t]]) < jb + n by {
            if t < prev.len() {
                assert(all[t] == prev[t]);
            } else {
                assert(all[t] == last[t - prev.len()]);
            }
        }
    }
}

/// A rectangle scan holds no entity twice, and each entity it holds is
/// recorded in one of the scanned cells.
pub proof fn lemma_rect_scan_unique(g: &CacheGrid, ib: int, m: nat, jb: int, n: nat)
    requires
        g.wf(),
        cell_in_range(ib),
        cell_in_range(ib + m),
        cell_in_range(jb),
        cell_in_range(jb + n),
    ensures
        rect_scan(g.cells(), ib, m, jb, n).no_duplicates(),
        forall|t: int|
            #![trigger rect_scan(g.cells(), ib, m, jb, n)[t]]
            0 <= t < rect_scan(g.cells(), ib, m, jb, n).len() ==> g.associations@.contains_key(
                rect_scan(g.cells(), ib, m, jb, n)[t],
            ) && ib <= key_row(g.associations@[rect_scan(g.cells(), ib, m, jb, n)[t]]) < ib + m,
    decreases m,
{
    let cells = g.cells();
    let assoc = g.associations@;
    if m > 0 {
        lemma_rect_scan_unique(g, ib, (m - 1) as nat, jb, n);
        let prev = rect_scan(cells, ib, (m - 1) as nat, jb, n);
        let last = row_scan(cells, ib + m - 1, jb, n);
        lemma_row_scan_unique(g, ib + m - 1, jb, n);
        assert forall|a: int, b: int| 0 <= a < prev.len() && 0 <= b < last.len() implies prev[a]
            != last[b] by {
            assert(key_row(assoc[last[b]]) == ib + m - 1);
            assert(key_row(assoc[prev[a]]) < ib + m - 1);
        }
        vstd::seq_lib::lemma_no_dup_in_concat(prev, last);
        let all = prev + last;
        assert(rect_scan(cells, ib, m, jb, n) == all);
        assert forall|t: int| 0 <= t < all.len() implies assoc.contains_key(#[trigger] all[t])
            && ib <= key_row(assoc[all[t]]) < ib + m by {
            if t < prev.len() {
                assert(all[t] == prev[t]);
            } else {
                assert(all[t] == last[t - prev.len()]);
            }
        }
    }
}

proof fn lemma_drop_keeps_wf(
    cells0: Map<u64, Seq<u64>>,
    assoc0: Map<u64, u64>,
    pos0: Map<u64, Vec2i>,
    e: u64,
)
    requires
        wf_parts(cells0, assoc0, pos0),
    ensures
        wf_parts(
            if assoc0.contains_key(e) {
                drop_member(cells0, assoc0[e], e)
            } else {
                cells0
            },
            assoc0.remove(e),
            pos0.remove(e),
        ),
{
    let c1 = if assoc0.contains_key(e) {
        drop_member(cells0, assoc0[e], e)
    } else {
        cells0
    };
    let assoc = assoc0.remove(e);
    assert forall|kk: u64, n: int| c1.contains_key(kk) && 0 <= n < c1[kk].len() implies
        assoc.contains_key(#[trigger] c1[kk][n]) && assoc[c1[kk][n]] == kk by {
        if assoc0.contains_key(e) && kk == assoc0[e] {
            let s = cells0[kk];
            let idx = s.index_of(e);
            assert(s[idx] == e);
            if n < idx {
                assert(c1[kk][n] == s[n]);
            } else {
                assert(c1[kk][n] == s[n + 1]);
            }
        } else {
            assert(c1[kk] == cells0[kk]);
            if c1[kk][n] == e {
                assert(cells0[kk][n] == e);
            }
        }
    }
    assert forall|kk: u64| #[trigger] c1.contains_key(kk) implies c1[kk].len() > 0
        && c1[kk].no_duplicates() by {
        if assoc0.contains_key(e) && kk == assoc0[e] {
            let s = cells0[kk];
            let idx = s.index_of(e);
            assert forall|a: int, b: int|
                0 <= a < c1[kk].len() && 0 <= b < c1[kk].len() && a != b implies c1[kk][a]
                != c1[kk][b] by {
                let ia = if a < idx { a } else { a + 1 };
                let ib = if b < idx { b } else { b + 1 };
                assert(c1[kk][a] == s[ia]);
                assert(c1[kk][b] == s[ib]);
            }
        } else {
            assert(c1[kk] == cells0[kk]);
        }
    }
    assert forall|x: u64| #[trigger] assoc.contains_key(x) implies in_world(pos0.remove(e)[x])
        && assoc[x] == key_of(pos0.remove(e)[x]) && c1.contains_key(assoc[x])
        && c1[assoc[x]].contains(x) by {
        let kx = assoc0[x];
        assert(cells0[kx].contains(x));
        let jx = choose|jx: int| 0 <= jx < cells0[kx].len() && cells0[kx][jx] == x;
        if assoc0.contains_key(e) && kx == assoc0[e] {
            let s = cells0[kx];
            let idx = s.index_of(e);
            assert(s[idx] == e);
            assert(jx != idx);
            let m = if jx < idx { jx } else { jx - 1 };
            assert(s.remove(idx)[m] == x);
            assert(s.remove(idx).len() > 0);
        }
    }
    assert(assoc.dom() =~= pos0.remove(e).dom());
}

/// Buckets and associations after recording each `(entity, position)` in turn.
pub open spec fn updates_applied(
    cells: Map<u64, Seq<u64>>,
    assoc: Map<u64, u64>,
    ups: Seq<(u64, Vec2i)>,
) -> (Map<u64, Seq<u64>>, Map<u64, u64>)
    decreases ups.len(),
{
    if ups.len() == 0 {
        (cells, assoc)
    } else {
        let prev = updates_applied(cells, assoc, ups.drop_last());
        let e = ups.last().0;
        let k = key_of(ups.last().1);
        (moved_cells(prev.0, prev.1, e, k), prev.1.insert(e, k))
    }
}

/// Records the new positions of the entities that moved, in their order.
pub fn cache_grid_update_system(cache_grid: &mut CacheGrid, changed: &Vec<(u64, Vec2i)>)
    requires
        old(cache_grid).wf(),
        forall|i: int| 0 <= i < changed@.len() ==> in_world(#[trigger] changed@[i].1),
    ensures
        final(cache_grid).wf(),
        (final(cache_grid).cells(), final(cache_grid).associations@) == updates_applied(
            old(cache_grid).cells(),
            old(cache_grid).associations@,
            changed@,
        ),
{
    let ghost c0 = cache_grid.cells();
    let ghost a0 = cache_grid.associations@;
    let mut i: usize = 0;
    while i < changed.len()
        invariant
            i <= changed@.len(),
            cache_grid.wf(),
            forall|k: int| 0 <= k < changed@.len() ==> in_world(#[trigger] changed@[k].1),
            (cache_grid.cells(), cache_grid.associations@) == updates_applied(
                c0,
                a0,
                changed@.take(i as int),
            ),
        decreases changed@.len() - i,
    {
        let (e, p) = changed[i];
        proof {
            assert(changed@.take(i + 1).drop_last() =~= changed@.take(i as int));
        }
        cache_grid.update_entity(e, p);
        i = i + 1;
    }
    proof {
        assert(changed@.take(changed@.len() as int) =~= changed@);
    }
}

/// The grid invariant, on the three maps it relates.
pub open spec fn wf_parts(cells: Map<u64, Seq<u64>>, assoc: Map<u64, u64>, pos: Map<u64, Vec2i>) -> bool {
    &&& assoc.dom() == pos.dom()
    &&& forall|e: u64| #[trigger]
        assoc.contains_key(e) ==> in_world(pos[e]) && assoc[e] == key_of(pos[e])
            && cells.contains_key(assoc[e]) && cells[assoc[e]].contains(e)
    &&& forall|k: u64| #[trigger]
        cells.contains_key(k) ==> cells[k].len() > 0 && cells[k].no_duplicates()
    &&& forall|k: u64, n: int|
        cells.contains_key(k) && 0 <= n < cells[k].len() ==> assoc.contains_key(
            #[trigger] cells[k][n],
        ) && assoc[cells[k][n]] == k
}

/// Every point of the world lies in a cell whose coordinates a key can hold.
pub proof fn lemma_point_cell_in_range(p: Vec2i)
    requires
        in_world(p),
    ensures
        cell_in_range(cell_row(p)),
        cell_in_range(cell_col(p)),
{
    vstd::arithmetic::div_mod::lemma_div_is_ordered(-WORLD_LIMIT as int, p.y as int, 20);
    vstd::arithmetic::div_mod::lemma_div_is_ordered(p.y as int, WORLD_LIMIT as int, 20);
    vstd::arithmetic::div_mod::lemma_div_is_ordered(-WORLD_LIMIT as int, p.x as int, 20);
    vstd::arithmetic::div_mod::lemma_div_is_ordered(p.x as int, WORLD_LIMIT as int, 20);
    assert((-1048576int) / 20 == -52429);
    assert(1048576int / 20 == 52428);
}

/// The key of the cell at row `i`, column `j`.
fn key_at(i: i64, j: i64) -> (k: u64)
    requires
        cell_in_range(i as int),
        cell_in_range(j as int),
    ensures
        k == cell_key(i as int, j as int),
        k as int == (i + CELL_OFFSET) * CELL_SPAN + (j + CELL_OFFSET),
{
    let a: i64 = i + CELL_OFFSET;
    let b: i64 = j + CELL_OFFSET;
    assert(0 <= a * CELL_SPAN <= CELL_SPAN * CELL_SPAN) by (nonlinear_arith)
        requires
            0 < a < CELL_SPAN,
    ;
    (a * CELL_SPAN + b) as u64
}

/// Position of `x` in `v`, which holds it.
fn find_index(v: &Vec<u64>, x: u64) -> (r: usize)
    requires
        v@.contains(x),
    ensures
        r < v@.len(),
        v@[r as int] == x,
{
    let mut i: usize = 0;
    while i < v.len()
        invariant
            0 <= i <= v@.len(),
            v@.contains(x),
            forall|m: int| 0 <= m < i ==> v@[m] != x,
        decreases v@.len() - i,
    {
        if v[i] == x {
            return i;
        }
        i = i + 1;
    }
    i
}

} // verus!
