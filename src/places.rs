//! Settlement markers and the grid index that finds the nearest one.

use vstd::prelude::*;
use crate::classify::{is_city_or_town, is_city_or_town_spec, is_place_node, is_place_spec};
use crate::geo::{
    Coord, cos_lat, cos_spec, div_floor, scaled_span2, span2, within, COS_SCALE, MAX_LAT, MAX_LON,
    UNITS_PER_DEGREE,
};
use crate::tags::{Tag, find_tag, tag_value};

verus! {

/// A named settlement with its position and the cosine of its latitude.
#[derive(Clone, Debug)]
pub struct PlaceNode {
    pub name: String,
    pub place_type: String,
    pub coord: Coord,
    pub cos_lat: i64,
    pub is_city_town: bool,
}

impl PlaceNode {
    /// The derived fields agree with name, class and position.
    pub open spec fn wf(&self) -> bool {
        &&& self.coord.wf()
        &&& self.cos_lat == cos_spec(self.coord.lat as int)
        &&& 0 <= self.cos_lat <= COS_SCALE
        &&& self.is_city_town == is_city_or_town_spec(self.place_type@)
    }

    pub fn new(name: String, place_type: String, coord: Coord) -> (r: PlaceNode)
        requires
            coord.wf(),
        ensures
            r.wf(),
            r.name@ == name@,
            r.place_type@ == place_type@,
            r.coord == coord,
    {
        let cos = cos_lat(coord.lat);
        let is_city_town = is_city_or_town(place_type.as_str());
        PlaceNode { name, place_type, coord, cos_lat: cos, is_city_town }
    }
}

/// A settlement marker from a point's tags, if they mark one.
pub fn place_node_from_tags(tags: &Vec<Tag>, coord: Coord) -> (r: Option<PlaceNode>)
    requires
        coord.wf(),
    ensures
        r is Some <==> is_place_spec(tags@),
        r matches Some(p) ==> p.wf() && p.coord == coord && tag_value(tags@, "name"@) == Some(
            p.name@,
        ) && tag_value(tags@, "place"@) == Some(p.place_type@),
{
    if !is_place_node(tags) {
        return None;
    }
    let name = match find_tag(tags, "name") {
        Some(i) => tags[i].value.clone(),
        None => return None,
    };
    let place_type = match find_tag(tags, "place") {
        Some(i) => tags[i].value.clone(),
        None => return None,
    };
    Some(PlaceNode::new(name, place_type, coord))
}

/// Which markers a query accepts.
#[derive(Clone, Copy, Debug, PartialEq, Eq, Structural)]
pub enum PlaceFilter {
    Any,
    CityTown,
}

/// Search radius of a query: 75 km in units of arc.
pub const PLACE_RADIUS: i64 = 6_744_912;

/// Half height of the search box: 75 km at 111 km per degree.
pub const BOX_LAT: i64 = 6_756_756;

/// Columns of the grid: one per degree of longitude, -180 to 180.
pub const GRID_COLS: i64 = 361;

/// Rows of the grid: one per degree of latitude, -90 to 90.
pub const GRID_ROWS: i64 = 181;

pub const GRID_CELLS: usize = 65_341;

/// Grid column of a point: its longitude in whole degrees, rounded down.
pub open spec fn cell_x(c: Coord) -> int {
    c.lon as int / UNITS_PER_DEGREE as int
}

/// Grid row of a point: its latitude in whole degrees, rounded down.
pub open spec fn cell_y(c: Coord) -> int {
    c.lat as int / UNITS_PER_DEGREE as int
}

/// Position of a cell in the grid's backing sequence.
pub open spec fn slot(x: int, y: int) -> int {
    (x + 180) * GRID_ROWS + (y + 90)
}

pub open spec fn cell_of(c: Coord) -> int {
    slot(cell_x(c), cell_y(c))
}

/// Half width of the search box at a latitude of cosine `c`: 75 km at
/// 111 km per degree, widened by `1 / c`; half the globe near the poles.
pub open spec fn box_lon(c: int) -> int {
    if c < 1 {
        MAX_LON as int
    } else {
        (750_000_000 * COS_SCALE) / (111 * c)
    }
}


/// `(2 * COS_SCALE * PLACE_RADIUS)^2`: the bound of `span2` within the radius.
pub const PLACE_SPAN2: u128 = 181_975_351_550_976_000_000_000_000;

/// Cell `(ax, ay)` comes before cell `(bx, by)`: by column, then by row.
pub open spec fn cell_less(ax: int, ay: int, bx: int, by: int) -> bool {
    ax < bx || (ax == bx && ay < by)
}

/// Distinct cells of the globe have distinct slots.
pub proof fn lemma_slot_injective(ax: int, ay: int, bx: int, by: int)
    requires
        -90 <= ay <= 90,
        -90 <= by <= 90,
        slot(ax, ay) == slot(bx, by),
    ensures
        ax == bx,
        ay == by,
{
    assert(ax == bx) by (nonlinear_arith)
        requires
            -90 <= ay <= 90,
            -90 <= by <= 90,
            (ax + 180) * 181 + (ay + 90) == (bx + 180) * 181 + (by + 90),
    ;
}

pub proof fn lemma_cell_range(c: Coord)
    requires
        c.wf(),
    ensures
        -180 <= cell_x(c) <= 180,
        -90 <= cell_y(c) <= 90,
        0 <= cell_of(c) < GRID_CELLS,
{
    vstd::arithmetic::div_mod::lemma_div_is_ordered(c.lon as int, MAX_LON as int, UNITS_PER_DEGREE as int);
    vstd::arithmetic::div_mod::lemma_div_is_ordered(-MAX_LON as int, c.lon as int, UNITS_PER_DEGREE as int);
    vstd::arithmetic::div_mod::lemma_div_is_ordered(c.lat as int, MAX_LAT as int, UNITS_PER_DEGREE as int);
    vstd::arithmetic::div_mod::lemma_div_is_ordered(-MAX_LAT as int, c.lat as int, UNITS_PER_DEGREE as int);
    assert(MAX_LON as int / UNITS_PER_DEGREE as int == 180);
    assert(-MAX_LON as int / UNITS_PER_DEGREE as int == -180);
    assert(MAX_LAT as int / UNITS_PER_DEGREE as int == 90);
    assert(-MAX_LAT as int / UNITS_PER_DEGREE as int == -90);
    let x = cell_x(c);
    let y = cell_y(c);
    assert(0 <= (x + 180) * 181 + (y + 90) < 65_341) by (nonlinear_arith)
        requires
            -180 <= x <= 180,
            -90 <= y <= 90,
    ;
}

/// The markers, and a grid of one-degree cells that lists, for each cell,
/// the indices of the markers inside it in increasing order.
pub struct PlaceIndex {
    pub places: Vec<PlaceNode>,
    pub grid: Vec<Vec<usize>>,
}

impl PlaceIndex {
    pub open spec fn member(&self, k: int, m: int) -> usize {
        self.grid@[k]@[m]
    }

    pub open spec fn wf(&self) -> bool {
        &&& forall|i: int| 0 <= i < self.places@.len() ==> (#[trigger] self.places@[i]).wf()
        &&& self.grid@.len() == GRID_CELLS
        &&& forall|k: int, m: int|
            0 <= k < GRID_CELLS && 0 <= m < self.grid@[k]@.len() ==> {
                &&& #[trigger] self.member(k, m) < self.places@.len()
                &&& cell_of(self.places@[self.member(k, m) as int].coord) == k
            }
        &&& forall|k: int, m1: int, m2: int|
            0 <= k < GRID_CELLS && 0 <= m1 < m2 < self.grid@[k]@.len() ==> #[trigger] self.member(
                k,
                m1,
            ) < #[trigger] self.member(k, m2)
        &&& forall|i: int|
            0 <= i < self.places@.len() ==> self.grid@[cell_of(
                #[trigger] self.places@[i].coord,
            )]@.contains(i as usize)
    }

    /// Index the markers in one-degree cells.
    pub fn new(places: Vec<PlaceNode>) -> (r: PlaceIndex)
        requires
            forall|i: int| 0 <= i < places@.len() ==> (#[trigger] places@[i]).wf(),
        ensures
            r.wf(),
            r.places@ == places@,
    {
        let mut grid: Vec<Vec<usize>> = Vec::new();
        while grid.len() < GRID_CELLS
            invariant
                grid@.len() <= GRID_CELLS,
                forall|k: int| 0 <= k < grid@.len() ==> (#[trigger] grid@[k])@.len() == 0,
            decreases GRID_CELLS - grid@.len(),
        {
            grid.push(Vec::new());
        }
        let n = places.len();
        let mut i: usize = 0;
        while i < n
            invariant
                n == places@.len(),
                0 <= i <= n,
                forall|j: int| 0 <= j < places@.len() ==> (#[trigger] places@[j]).wf(),
                grid@.len() == GRID_CELLS,
                forall|k: int, m: int|
                    0 <= k < GRID_CELLS && 0 <= m < grid@[k]@.len() ==> {
                        &&& #[trigger] grid@[k]@[m] < i
                        &&& cell_of(places@[grid@[k]@[m] as int].coord) == k
                    },
                forall|k: int, m1: int, m2: int|
                    0 <= k < GRID_CELLS && 0 <= m1 < m2 < grid@[k]@.len() ==> #[trigger] grid@[k]@[m1]
                        < #[trigger] grid@[k]@[m2],
                forall|j: int|
                    0 <= j < i ==> grid@[cell_of(#[trigger] places@[j].coord)]@.contains(j as usize),
            decreases n - i,
        {
            let c = places[i].coord;
            proof {
                lemma_cell_range(c);
            }
            let cx = div_floor(c.lon as i128, UNITS_PER_DEGREE as i128);
            let cy = div_floor(c.lat as i128, UNITS_PER_DEGREE as i128);
            let k: usize = ((cx + 180) * 181 + (cy + 90)) as usize;
            let ghost old_grid = grid@;
            grid[k].push(i);
            proof {
                assert(grid@[k as int]@ == old_grid[k as int]@.push(i));
                assert forall|j: int| 0 <= j < i + 1 implies grid@[cell_of(
                    #[trigger] places@[j].coord,
                )]@.contains(j as usize) by {
                    if j < i {
                        let kk = cell_of(places@[j].coord);
                        lemma_cell_range(places@[j].coord);
                        assert(old_grid[kk]@.contains(j as usize));
                        let mm = choose|mm: int| 0 <= mm < old_grid[kk]@.len() && old_grid[kk]@[mm] == j as usize;
                        assert(grid@[kk]@[mm] == j as usize);
                    } else {
                        assert(grid@[k as int]@[old_grid[k as int]@.len() as int] == i);
                    }
                }
            }
            i = i + 1;
        }
        PlaceIndex { places, grid }
    }

    /// The box of cells searched around `q`: whole degrees of longitude and
    /// latitude within the search box.
    pub open spec fn in_box(q: Coord, c: Coord) -> bool {
        let dl = box_lon(cos_spec(q.lat as int));
        &&& (q.lon - dl) / (UNITS_PER_DEGREE as int) <= cell_x(c)
        &&& cell_x(c) <= (q.lon + dl) / (UNITS_PER_DEGREE as int)
        &&& (q.lat - BOX_LAT) / (UNITS_PER_DEGREE as int) <= cell_y(c)
        &&& cell_y(c) <= (q.lat + BOX_LAT) / (UNITS_PER_DEGREE as int)
    }

    pub open spec fn passes(p: PlaceNode, f: PlaceFilter) -> bool {
        f == PlaceFilter::Any || p.is_city_town
    }

    /// Scaled squared distance from `q` to marker `j`.
    pub open spec fn dist(&self, q: Coord, j: int) -> int {
        span2(q, cos_spec(q.lat as int), self.places@[j].coord, self.places@[j].cos_lat as int)
    }

    /// Marker `j` passes the filter, lies in a searched cell and within the
    /// search radius.
    pub open spec fn is_candidate(&self, q: Coord, f: PlaceFilter, j: int) -> bool {
        &&& 0 <= j < self.places@.len()
        &&& Self::passes(self.places@[j], f)
        &&& Self::in_box(q, self.places@[j].coord)
        &&& within(q, cos_spec(q.lat as int), self.places@[j].coord, self.places@[j].cos_lat as int, PLACE_RADIUS as int)
    }

    /// Marker `i` is met before marker `j` when the cells are walked by
    /// column, then row, then index.
    pub open spec fn before(&self, i: int, j: int) -> bool {
        let a = self.places@[i].coord;
        let b = self.places@[j].coord;
        cell_less(cell_x(a), cell_y(a), cell_x(b), cell_y(b)) || (cell_x(a) == cell_x(b) && cell_y(a)
            == cell_y(b) && i < j)
    }

    /// Marker `i` is nearer to `q` than `j`, or as near and met first.
    pub open spec fn better(&self, q: Coord, i: int, j: int) -> bool {
        self.dist(q, i) < self.dist(q, j) || (self.dist(q, i) == self.dist(q, j) && self.before(i, j))
    }

    /// Marker `i` is the nearest candidate, the first met among equals.
    pub open spec fn is_nearest(&self, q: Coord, f: PlaceFilter, i: int) -> bool {
        &&& self.is_candidate(q, f, i)
        &&& forall|j: int| #[trigger] self.is_candidate(q, f, j) ==> !self.better(q, j, i)
    }

    /// Every candidate `j` met so far loses to the current best.
    pub open spec fn covered(&self, q: Coord, f: PlaceFilter, best: Option<usize>, j: int) -> bool {
        self.is_candidate(q, f, j) ==> (best matches Some(b) && !self.better(q, j, b as int))
    }

    /// Index of the marker nearest to `point` that passes `filter`, within
    /// the search radius.
    pub fn nearest_index(&self, point: Coord, filter: PlaceFilter) -> (r: Option<usize>)
        requires
            self.wf(),
            point.wf(),
        ensures
            r is None ==> forall|j: int| !(#[trigger] self.is_candidate(point, filter, j)),
            r matches Some(i) ==> self.is_nearest(point, filter, i as int),
    {
        let cq = cos_lat(point.lat);
        let dl: i128 = if cq < 1 {
            MAX_LON as i128
        } else {
            (750_000_000i128 * 1_000_000i128) / (111 * cq as i128)
        };
        proof {
            if cq >= 1 {
                vstd::arithmetic::div_mod::lemma_div_is_ordered_by_denominator(750_000_000_000_000, 111, 111 * cq as int);
                vstd::arithmetic::div_mod::lemma_div_pos_is_pos(750_000_000_000_000, 111 * cq as int);
            }
        }
        let x_lo0 = div_floor(point.lon as i128 - dl, UNITS_PER_DEGREE as i128);
        let x_hi0 = div_floor(point.lon as i128 + dl, UNITS_PER_DEGREE as i128);
        let y_lo0 = div_floor(point.lat as i128 - BOX_LAT as i128, UNITS_PER_DEGREE as i128);
        let y_hi0 = div_floor(point.lat as i128 + BOX_LAT as i128, UNITS_PER_DEGREE as i128);
        let x_lo: i128 = if x_lo0 < -180 { -180 } else { x_lo0 };
        let x_hi: i128 = if x_hi0 > 180 { 180 } else { x_hi0 };
        let y_lo: i128 = if y_lo0 < -90 { -90 } else { y_lo0 };
        let y_hi: i128 = if y_hi0 > 90 { 90 } else { y_hi0 };
        let np = self.places.len();
        let mut best: Option<usize> = None;
        let mut best_d: u128 = 0;
        let mut x: i128 = x_lo;
        while x <= x_hi
            invariant
                self.wf(),
                point.wf(),
                np == self.places@.len(),
                cq == cos_spec(point.lat as int),
                0 <= cq <= COS_SCALE,
                dl == box_lon(cq as int),
                x_lo0 == (point.lon - dl) / (UNITS_PER_DEGREE as int),
                x_hi0 == (point.lon + dl) / (UNITS_PER_DEGREE as int),
                y_lo0 == (point.lat - BOX_LAT) / (UNITS_PER_DEGREE as int),
                y_hi0 == (point.lat + BOX_LAT) / (UNITS_PER_DEGREE as int),
                x_lo == (if x_lo0 < -180 { -180int } else { x_lo0 as int }),
                x_hi == (if x_hi0 > 180 { 180int } else { x_hi0 as int }),
                y_lo == (if y_lo0 < -90 { -90int } else { y_lo0 as int }),
                y_hi == (if y_hi0 > 90 { 90int } else { y_hi0 as int }),
                -180 <= x_lo <= x,
                x <= 181,
                best matches Some(b) ==> self.is_candidate(point, filter, b as int) && best_d == self.dist(point, b as int)
                    && cell_x(self.places@[b as int].coord) < x,
                forall|j: int|
                    0 <= j < self.places@.len() && cell_x(#[trigger] self.places@[j].coord) < x
                        ==> self.covered(point, filter, best, j),
            decreases 181 - x,
        {
            let mut y: i128 = y_lo;
            while y <= y_hi
                invariant
                    self.wf(),
                    point.wf(),
                    np == self.places@.len(),
                    cq == cos_spec(point.lat as int),
                    0 <= cq <= COS_SCALE,
                    dl == box_lon(cq as int),
                    x_lo0 == (point.lon - dl) / (UNITS_PER_DEGREE as int),
                    x_hi0 == (point.lon + dl) / (UNITS_PER_DEGREE as int),
                    y_lo0 == (point.lat - BOX_LAT) / (UNITS_PER_DEGREE as int),
                    y_hi0 == (point.lat + BOX_LAT) / (UNITS_PER_DEGREE as int),
                    x_lo == (if x_lo0 < -180 { -180int } else { x_lo0 as int }),
                    x_hi == (if x_hi0 > 180 { 180int } else { x_hi0 as int }),
                    y_lo == (if y_lo0 < -90 { -90int } else { y_lo0 as int }),
                    y_hi == (if y_hi0 > 90 { 90int } else { y_hi0 as int }),
                    -180 <= x_lo <= x <= x_hi <= 180,
                    -90 <= y_lo <= y,
                    y <= 91,
                    best matches Some(b) ==> self.is_candidate(point, filter, b as int) && best_d == self.dist(point, b as int)
                        && cell_less(cell_x(self.places@[b as int].coord), cell_y(self.places@[b as int].coord), x as int, y as int),
                    forall|j: int|
                        0 <= j < self.places@.len() && cell_less(
                            cell_x(#[trigger] self.places@[j].coord),
                            cell_y(self.places@[j].coord),
                            x as int,
                            y as int,
                        ) ==> self.covered(point, filter, best, j),
                decreases 91 - y,
            {
                let k: usize = ((x + 180) * 181 + (y + 90)) as usize;
                let bucket = &self.grid[k];
                let mut m: usize = 0;
                while m < bucket.len()
                    invariant
                        self.wf(),
                        point.wf(),
                        np == self.places@.len(),
                        cq == cos_spec(point.lat as int),
                        0 <= cq <= COS_SCALE,
                        dl == box_lon(cq as int),
                        x_lo0 == (point.lon - dl) / (UNITS_PER_DEGREE as int),
                        x_hi0 == (point.lon + dl) / (UNITS_PER_DEGREE as int),
                        y_lo0 == (point.lat - BOX_LAT) / (UNITS_PER_DEGREE as int),
                        y_hi0 == (point.lat + BOX_LAT) / (UNITS_PER_DEGREE as int),
                        x_lo == (if x_lo0 < -180 { -180int } else { x_lo0 as int }),
                        x_hi == (if x_hi0 > 180 { 180int } else { x_hi0 as int }),
                        y_lo == (if y_lo0 < -90 { -90int } else { y_lo0 as int }),
                        y_hi == (if y_hi0 > 90 { 90int } else { y_hi0 as int }),
                        -180 <= x_lo <= x <= x_hi <= 180,
                        -90 <= y_lo <= y <= y_hi <= 90,
                        k == slot(x as int, y as int),
                        0 <= k < GRID_CELLS,
                        bucket@ == self.grid@[k as int]@,
                        0 <= m <= bucket@.len(),
                        best matches Some(b) ==> self.is_candidate(point, filter, b as int) && best_d == self.dist(point, b as int)
                            && (cell_less(cell_x(self.places@[b as int].coord), cell_y(self.places@[b as int].coord), x as int, y as int)
                            || (cell_x(self.places@[b as int].coord) == x && cell_y(self.places@[b as int].coord) == y
                                && (m < bucket@.len() ==> b < bucket@[m as int]))),
                        forall|j: int|
                            0 <= j < self.places@.len() && cell_less(
                                cell_x(#[trigger] self.places@[j].coord),
                                cell_y(self.places@[j].coord),
                                x as int,
                                y as int,
                            ) ==> self.covered(point, filter, best, j),
                        forall|mm: int| 0 <= mm < m ==> self.covered(point, filter, best, #[trigger] bucket@[mm] as int),
                    decreases bucket@.len() - m,
                {
                    let j = bucket[m];
                    assert(self.member(k as int, m as int) == j);
                    let p = &self.places[j];
                    assert(p.wf());
                    proof {
                        lemma_cell_range(p.coord);
                        lemma_slot_injective(cell_x(p.coord), cell_y(p.coord), x as int, y as int);
                    }
                    let ghost old_best = best;
                    proof {
                        assert(Self::in_box(point, p.coord));
                        assert((2 * COS_SCALE * PLACE_RADIUS) * (2 * COS_SCALE * PLACE_RADIUS) == PLACE_SPAN2) by (nonlinear_arith);
                        assert(self.is_candidate(point, filter, j as int) == (Self::passes(*p, filter) && self.dist(point, j as int) <= PLACE_SPAN2));
                    }
                    if filter == PlaceFilter::Any || p.is_city_town {
                        let d = scaled_span2(point, cq, p.coord, p.cos_lat);
                        if d <= PLACE_SPAN2 {
                            let replace = match best {
                                None => true,
                                Some(_) => d < best_d,
                            };
                            if replace {
                                best = Some(j);
                                best_d = d;
                            }
                        }
                    }
                    proof {
                        if m + 1 < bucket@.len() {
                            assert(self.member(k as int, m as int) < self.member(k as int, m + 1));
                        }
                        assert forall|mm: int| 0 <= mm < m + 1 implies self.covered(point, filter, best, #[trigger] bucket@[mm] as int) by {
                            if mm < m {
                                assert(self.covered(point, filter, old_best, bucket@[mm] as int));
                            }
                        }
                    }
                    m = m + 1;
                }
                proof {
                    assert forall|j: int|
                        0 <= j < self.places@.len() && cell_less(
                            cell_x(#[trigger] self.places@[j].coord),
                            cell_y(self.places@[j].coord),
                            x as int,
                            y + 1,
                        ) implies self.covered(point, filter, best, j) by {
                        let c = self.places@[j].coord;
                        if cell_x(c) == x && cell_y(c) == y {
                            assert(cell_of(c) == k);
                            assert(self.grid@[cell_of(c)]@.contains(j as usize));
                            assert(bucket@.contains(j as usize));
                            let mm = choose|mm: int| 0 <= mm < bucket@.len() && bucket@[mm] == j as usize;
                            assert(0 <= mm < m);
                            assert(self.covered(point, filter, best, bucket@[mm] as int));
                            assert(bucket@[mm] as int == j);
                        }
                    }
                }
                y = y + 1;
            }
            proof {
                assert forall|j: int|
                    0 <= j < self.places@.len() && cell_x(#[trigger] self.places@[j].coord) < x + 1
                        implies self.covered(point, filter, best, j) by {
                    let c = self.places@[j].coord;
                    lemma_cell_range(c);
                    if cell_x(c) == x {
                        if cell_y(c) >= y {
                            assert(!self.is_candidate(point, filter, j));
                        }
                    }
                }
            }
            x = x + 1;
        }
        proof {
            assert forall|j: int| #[trigger] self.is_candidate(point, filter, j) implies self.covered(point, filter, best, j) by {
                let c = self.places@[j].coord;
                lemma_cell_range(c);
            }
        }
        best
    }

    /// The marker nearest to `point` that passes `filter`, within the
    /// search radius.
    pub fn nearest(&self, point: Coord, filter: PlaceFilter) -> (r: Option<&PlaceNode>)
        requires
            self.wf(),
            point.wf(),
        ensures
            r is None ==> forall|j: int| !(#[trigger] self.is_candidate(point, filter, j)),
            r matches Some(p) ==> exists|i: int| self.is_nearest(point, filter, i) && *p == self.places@[i],
    {
        match self.nearest_index(point, filter) {
            Some(i) => Some(&self.places[i]),
            None => None,
        }
    }
}

/// The nearest candidate's index, if there is a candidate.
pub open spec fn nearest_spec(index: PlaceIndex, q: Coord, f: PlaceFilter) -> Option<int> {
    if exists|i: int| index.is_nearest(q, f, i) {
        Some(choose|i: int| index.is_nearest(q, f, i))
    } else {
        None
    }
}

/// At most one marker is the nearest.
pub proof fn lemma_nearest_unique(index: PlaceIndex, q: Coord, f: PlaceFilter, i: int, j: int)
    requires
        index.is_nearest(q, f, i),
        index.is_nearest(q, f, j),
    ensures
        i == j,
{
    assert(!index.better(q, j, i));
    assert(!index.better(q, i, j));
}

impl PlaceIndex {
    /// Index of the nearest marker that passes `filter`, as `nearest_spec`
    /// names it.
    pub fn find_nearest(&self, point: Coord, filter: PlaceFilter) -> (r: Option<usize>)
        requires
            self.wf(),
            point.wf(),
        ensures
            match r {
                Some(i) => nearest_spec(*self, point, filter) == Some(i as int) && i < self.places@.len(),
                None => nearest_spec(*self, point, filter) is None,
            },
    {
        let r = self.nearest_index(point, filter);
        proof {
            match r {
                Some(i) => {
                    let c = choose|c: int| self.is_nearest(point, filter, c);
                    lemma_nearest_unique(*self, point, filter, i as int, c);
                },
                None => {
                    if exists|c: int| self.is_nearest(point, filter, c) {
                        let c = choose|c: int| self.is_nearest(point, filter, c);
                        assert(self.is_candidate(point, filter, c));
                    }
                },
            }
        }
        r
    }
}

} // verus!
