//! The board: a fixed-size grid of points, each empty or occupied by a stone
//! belonging to a group (a "string") of connected same-color stones.  Groups
//! are kept in an arena of slots; each occupied grid cell stores the slot id
//! of its group, so group identity is a single integer rather than a value
//! copied into every cell.

use vstd::pervasive::VecAdditionalExecFns;
use vstd::prelude::*;

verus! {

/// The color of a stone or player.
#[derive(Copy, Clone, Debug, PartialEq, Eq, Structural)]
pub enum Color {
    Black,
    White,
}

impl Color {
    /// The opposing color.
    pub open spec fn opposite(self) -> Color {
        match self {
            Color::Black => Color::White,
            Color::White => Color::Black,
        }
    }

    /// The marker used for this color in the textual board snapshot.
    pub open spec fn marker(self) -> char {
        match self {
            Color::Black => 'X',
            Color::White => 'O',
        }
    }

    pub fn next(&self) -> (r: Color)
        ensures
            r == self.opposite(),
            r != *self,
    {
        match self {
            Color::Black => Color::White,
            Color::White => Color::Black,
        }
    }

    pub fn to_string(&self) -> (r: String)
        ensures
            r@ == seq![self.marker()],
    {
        match self {
            Color::Black => {
                let s = String::from_str("X");
                proof {
                    reveal_strlit("X");
                    assert(s@ =~= seq![self.marker()]);
                }
                s
            },
            Color::White => {
                let s = String::from_str("O");
                proof {
                    reveal_strlit("O");
                    assert(s@ =~= seq![self.marker()]);
                }
                s
            },
        }
    }
}

/// A coordinate pair (x, y); both components are at least 0 and, for
/// on-board points, below the board size.
#[derive(Copy, Clone, Debug, PartialEq, Eq, Structural)]
pub struct Point(pub usize, pub usize);

/// Orthogonal adjacency of two points: they agree on one axis and differ by
/// exactly one on the other.  Symmetric by construction.
pub open spec fn adjacent(p: Point, q: Point) -> bool {
    ||| (p.0 == q.0 && (p.1 + 1 == q.1 || q.1 + 1 == p.1))
    ||| (p.1 == q.1 && (p.0 + 1 == q.0 || q.0 + 1 == p.0))
}

impl Point {
    /// The orthogonal neighbors of this point, without regard to any board
    /// bound: exactly the points adjacent to it with non-negative
    /// coordinates.
    pub fn neighbors(&self) -> (r: Vec<Point>)
        requires
            self.0 < usize::MAX,
            self.1 < usize::MAX,
        ensures
            r@.no_duplicates(),
            forall|q: Point| #[trigger] r@.contains(q) <==> adjacent(*self, q),
    {
        let mut vec: Vec<Point> = Vec::new();
        let x = self.0;
        let y = self.1;
        if x > 0 {
            vec.push(Point(x - 1, y));
        }
        if y > 0 {
            vec.push(Point(x, y - 1));
        }
        vec.push(Point(x + 1, y));
        vec.push(Point(x, y + 1));
        proof {
            assert forall|q: Point| #[trigger] vec@.contains(q) implies adjacent(*self, q) by {
                let k = choose|k: int| 0 <= k < vec@.len() && vec@[k] == q;
            }
            assert forall|q: Point| adjacent(*self, q) implies #[trigger] vec@.contains(q) by {
                if q.0 == x && q.1 == y + 1 {
                    assert(vec@[vec@.len() - 1] == q);
                } else if q.0 == x + 1 && q.1 == y {
                    assert(vec@[vec@.len() - 2] == q);
                } else if x > 0 && q.0 + 1 == x && q.1 == y {
                    assert(vec@[0] == q);
                } else {
                    assert(y > 0 && q.0 == x && q.1 + 1 == y);
                    assert(vec@[if x > 0 { 1int } else { 0int }] == q);
                }
            }
        }
        vec
    }
}

/// Why a requested operation was rejected.  Every variant is non-fatal: the
/// board and game are left unchanged when one is returned.
#[derive(Copy, Clone, Debug, PartialEq, Eq, Structural)]
pub enum IllegalMove {
    /// The coordinate lies outside `[0, size)` on at least one axis.
    OffBoard,
    /// The target point already holds a stone.
    Occupied,
    /// The placement would leave the placing group with zero liberties
    /// without capturing any opponent group.
    Suicide,
    /// The operation was attempted after the game finished.
    GameOver,
}

/// A group ("string") of connected same-color stones, together with its
/// liberties: the empty in-bounds points adjacent to any of its stones.
#[derive(Debug)]
pub struct GoString {
    color: Color,
    stones: Vec<Point>,
    liberties: Vec<Point>,
}

impl GoString {
    pub closed spec fn spec_color(self) -> Color {
        self.color
    }

    pub closed spec fn spec_stones(self) -> Seq<Point> {
        self.stones@
    }

    pub closed spec fn spec_liberties(self) -> Seq<Point> {
        self.liberties@
    }

    pub fn new(color: Color, stones: Vec<Point>, liberties: Vec<Point>) -> (r: GoString)
        ensures
            r.spec_color() == color,
            r.spec_stones() == stones@,
            r.spec_liberties() == liberties@,
    {
        GoString { color, stones, liberties }
    }

    pub fn num_liberties(&self) -> (r: usize)
        ensures
            r == self.spec_liberties().len(),
    {
        self.liberties.len()
    }

    pub fn color(&self) -> (r: Color)
        ensures
            r == self.spec_color(),
    {
        self.color
    }

    /// Whether `p` is one of this group's recorded liberties.
    pub fn has_liberty(&self, p: Point) -> (r: bool)
        ensures
            r == self.spec_liberties().contains(p),
    {
        contains_point(&self.liberties, p)
    }

    /// Whether `p` is one of this group's stones.
    pub fn has_stone(&self, p: Point) -> (r: bool)
        ensures
            r == self.spec_stones().contains(p),
    {
        contains_point(&self.stones, p)
    }

    /// Whether the group has at least one liberty other than `p`.
    fn has_other_liberty(&self, p: Point) -> (r: bool)
        ensures
            r == exists|k: int|
                0 <= k < self.spec_liberties().len() && self.spec_liberties()[k] != p,
    {
        let mut k: usize = 0;
        while k < self.liberties.len()
            invariant
                0 <= k <= self.liberties@.len(),
                forall|j: int| 0 <= j < k ==> self.liberties@[j] == p,
            decreases self.liberties@.len() - k,
        {
            if self.liberties[k] != p {
                proof {
                    assert(self.spec_liberties()[k as int] != p);
                }
                return true;
            }
            k = k + 1;
        }
        false
    }
}

/// Whether `p` is adjacent to at least one stone of the group `g`.
pub open spec fn adj_to_group(g: GoString, p: Point) -> bool {
    exists|k: int| 0 <= k < g.spec_stones().len() && adjacent(g.spec_stones()[k], p)
}

fn contains_point(v: &Vec<Point>, p: Point) -> (r: bool)
    ensures
        r == v@.contains(p),
{
    let mut k: usize = 0;
    while k < v.len()
        invariant
            0 <= k <= v@.len(),
            forall|j: int| 0 <= j < k ==> v@[j] != p,
        decreases v@.len() - k,
    {
        if v[k] == p {
            return true;
        }
        k = k + 1;
    }
    false
}

fn contains_id(v: &Vec<usize>, id: usize) -> (r: bool)
    ensures
        r == v@.contains(id),
{
    let mut k: usize = 0;
    while k < v.len()
        invariant
            0 <= k <= v@.len(),
            forall|j: int| 0 <= j < k ==> v@[j] != id,
        decreases v@.len() - k,
    {
        if v[k] == id {
            return true;
        }
        k = k + 1;
    }
    false
}

/// Copies a vector of points; used where a group's stone list is needed
/// while the arena that owns it is being rewritten.
fn copy_points(v: &Vec<Point>) -> (r: Vec<Point>)
    ensures
        r@ == v@,
{
    let mut out: Vec<Point> = Vec::new();
    let mut k: usize = 0;
    while k < v.len()
        invariant
            0 <= k <= v@.len(),
            out@ == v@.subrange(0, k as int),
        decreases v@.len() - k,
    {
        out.push(v[k]);
        proof {
            assert(out@ =~= v@.subrange(0, k + 1));
        }
        k = k + 1;
    }
    proof {
        assert(out@ =~= v@);
    }
    out
}

/// The board: a fixed `size`, a grid cell per point holding the arena slot
/// id of the group occupying that point (or nothing), and the arena of
/// group slots themselves.
#[derive(Debug)]
pub struct Board {
    size: usize,
    grid: Vec<Option<usize>>,
    strings: Vec<Option<GoString>>,
}

/// Both coordinates of `p` lie in `[0, n)`.
pub open spec fn in_range(n: int, p: Point) -> bool {
    p.0 < n && p.1 < n
}

/// The row-major grid index of `p` on a board of side `n`.
pub open spec fn pidx(n: int, p: Point) -> int {
    p.0 * n + p.1
}

impl Board {
    pub closed spec fn spec_size(self) -> int {
        self.size as int
    }

    /// Both coordinates lie in `[0, size)`.
    pub open spec fn in_bounds(self, p: Point) -> bool {
        in_range(self.spec_size(), p)
    }

    pub closed spec fn spec_idx(self, p: Point) -> int {
        pidx(self.size as int, p)
    }

    /// The arena slot id of the group occupying `p`, if any; total: out of
    /// bounds reads as empty.
    pub closed spec fn id_at(self, p: Point) -> Option<usize> {
        if self.in_bounds(p) && 0 <= self.spec_idx(p) < self.grid@.len() {
            self.grid@[self.spec_idx(p)]
        } else {
            None
        }
    }

    /// Whether arena slot `id` currently holds a group.
    pub closed spec fn live(self, id: int) -> bool {
        0 <= id < self.strings@.len() && self.strings@[id] is Some
    }

    pub closed spec fn string_at(self, id: int) -> GoString {
        self.strings@[id]->0
    }

    /// The contents of point `p`: the color of the stone there, or nothing.
    pub open spec fn occupant(self, p: Point) -> Option<Color> {
        match self.id_at(p) {
            Some(id) => Some(self.string_at(id as int).spec_color()),
            None => None,
        }
    }

    /// The group whose stone occupies `p`; meaningful only when
    /// `occupant(p)` is some.
    pub open spec fn group_at(self, p: Point) -> GoString {
        self.string_at(self.id_at(p)->0 as int)
    }

    /// Occupancy bookkeeping is consistent: the grid has one cell per
    /// point; every occupied cell names a live group that lists the point
    /// among its stones; every stone of a live group occupies its own cell;
    /// stone lists are non-empty and duplicate-free; and a group is closed
    /// under same-color adjacency (no two distinct same-color groups touch).
    pub closed spec fn wf_occ(self) -> bool {
        &&& self.size * self.size <= usize::MAX
        &&& self.grid@.len() == self.size * self.size
        &&& forall|p: Point|
            self.in_bounds(p) && (#[trigger] self.id_at(p)) is Some ==> {
                let id = self.id_at(p)->0 as int;
                self.live(id) && self.string_at(id).spec_stones().contains(p)
            }
        &&& forall|id: int| #[trigger] self.live(id) ==> self.wf_string_occ(id)
    }

    pub closed spec fn wf_string_occ(self, id: int) -> bool {
        let g = self.string_at(id);
        &&& g.spec_stones().len() > 0
        &&& g.spec_stones().no_duplicates()
        &&& forall|k: int|
            0 <= k < g.spec_stones().len() ==> {
                let p = #[trigger] g.spec_stones()[k];
                self.in_bounds(p) && self.id_at(p) == Some(id as usize)
            }
        &&& forall|k: int, q: Point|
            0 <= k < g.spec_stones().len() && #[trigger] adjacent(g.spec_stones()[k], q)
                && self.occupant(q) == Some(g.spec_color()) ==> self.id_at(q) == Some(id as usize)
    }

    /// Liberty bookkeeping is exact for the group in slot `id`: its
    /// recorded liberties are duplicate-free and are precisely the empty
    /// in-bounds points adjacent to at least one of its stones.
    pub closed spec fn wf_libs_string(self, id: int) -> bool {
        let g = self.string_at(id);
        &&& g.spec_liberties().no_duplicates()
        &&& forall|k: int|
            0 <= k < g.spec_liberties().len() ==> {
                let p = #[trigger] g.spec_liberties()[k];
                self.in_bounds(p) && self.id_at(p) is None && adj_to_group(g, p)
            }
        &&& forall|p: Point|
            self.in_bounds(p) && self.id_at(p) is None && #[trigger] adj_to_group(g, p)
                ==> g.spec_liberties().contains(p)
    }

    pub closed spec fn wf_libs(self) -> bool {
        forall|id: int| #[trigger] self.live(id) ==> self.wf_libs_string(id)
    }

    /// The board invariant: consistent occupancy plus exact liberty sets.
    pub closed spec fn well_formed(self) -> bool {
        self.wf_occ() && self.wf_libs()
    }

    pub fn new(size: usize) -> (r: Board)
        requires
            size * size <= usize::MAX,
        ensures
            r.well_formed(),
            r.spec_size() == size,
            forall|p: Point| r.occupant(p) is None,
    {
        let n = size * size;
        let mut grid: Vec<Option<usize>> = Vec::new();
        while grid.len() < n
            invariant
                grid@.len() <= n,
                forall|i: int| 0 <= i < grid@.len() ==> grid@[i] is None,
            decreases n - grid@.len(),
        {
            grid.push(None);
        }
        Board { size, grid, strings: Vec::new() }
    }

    pub fn size(&self) -> (r: usize)
        ensures
            r == self.spec_size(),
    {
        self.size
    }

    fn is_on_grid(&self, point: Point) -> (r: bool)
        ensures
            r == self.in_bounds(point),
    {
        point.0 < self.size && point.1 < self.size
    }

    fn point_to_index(&self, point: &Point) -> (r: usize)
        requires
            self.in_bounds(*point),
            self.size * self.size <= usize::MAX,
        ensures
            r == self.spec_idx(*point),
            r < self.size * self.size,
    {
        proof {
            lemma_idx_bound(self.size as int, *point);
        }
        point.0 * self.size + point.1
    }

    /// The contents of point `p` as an executable read; out-of-bounds
    /// points read as empty.
    pub fn occupant_at(&self, point: Point) -> (r: Option<Color>)
        requires
            self.well_formed(),
        ensures
            r == self.occupant(point),
    {
        if !self.is_on_grid(point) {
            return None;
        }
        let i = self.point_to_index(&point);
        match self.grid[i] {
            None => None,
            Some(id) => {
                match &self.strings[id] {
                    Some(g) => Some(g.color),
                    None => None,
                }
            },
        }
    }

    /// The group occupying `point`, if any.
    pub fn get_go_string(&self, point: Point) -> (r: Option<&GoString>)
        requires
            self.well_formed(),
        ensures
            match r {
                Some(g) => self.occupant(point) is Some && *g == self.group_at(point),
                None => self.occupant(point) is None,
            },
    {
        if !self.is_on_grid(point) {
            return None;
        }
        let i = self.point_to_index(&point);
        match self.grid[i] {
            None => None,
            Some(id) => {
                match &self.strings[id] {
                    Some(g) => Some(g),
                    None => {
                        proof {
                            assert(self.id_at(point) is Some);
                            assert(self.live(id as int));
                        }
                        None
                    },
                }
            },
        }
    }
}

impl Board {
    /// A play at `p` captures the group occupying `q`: that group's only
    /// liberty is `p` itself.  Meaningful when `q` is occupied.
    pub open spec fn group_captured_by(self, q: Point, p: Point) -> bool {
        self.group_at(q).spec_liberties().len() == 1 && self.group_at(q).spec_liberties()[0] == p
    }

    /// A play of `color` at `p` is legal: `p` is an empty in-bounds point,
    /// and the stone either keeps a liberty for its own (possibly merged)
    /// group — an empty adjacent point, or an adjacent same-color group
    /// with a liberty besides `p` — or captures at least one adjacent
    /// opposing group whose last liberty is `p`.
    pub open spec fn legal_play(self, color: Color, p: Point) -> bool {
        &&& self.in_bounds(p)
        &&& self.occupant(p) is None
        &&& ({
            ||| exists|q: Point| adjacent(p, q) && self.in_bounds(q) && self.occupant(q) is None
            ||| exists|q: Point|
                adjacent(p, q) && self.occupant(q) == Some(color) && exists|k: int|
                    0 <= k < self.group_at(q).spec_liberties().len()
                        && self.group_at(q).spec_liberties()[k] != p
            ||| exists|q: Point|
                adjacent(p, q) && self.occupant(q) == Some(color.opposite())
                    && self.group_captured_by(q, p)
        })
    }

    /// The in-bounds orthogonal neighbors of `point`.
    fn neighbors(&self, point: &Point) -> (r: Vec<Point>)
        requires
            self.in_bounds(*point),
            self.size * self.size <= usize::MAX,
        ensures
            r@.no_duplicates(),
            forall|q: Point| #[trigger] r@.contains(q) <==> adjacent(*point, q) && self.in_bounds(q),
    {
        proof {
            assert(point.0 < usize::MAX && point.1 < usize::MAX) by (nonlinear_arith)
                requires
                    point.0 < self.size,
                    point.1 < self.size,
                    self.size * self.size <= usize::MAX,
            ;
        }
        let all = point.neighbors();
        let mut out: Vec<Point> = Vec::new();
        let mut k: usize = 0;
        while k < all.len()
            invariant
                0 <= k <= all@.len(),
                all@.no_duplicates(),
                forall|q: Point| #[trigger] all@.contains(q) <==> adjacent(*point, q),
                out@.no_duplicates(),
                forall|q: Point| #[trigger] out@.contains(q)
                    <==> exists|j: int| 0 <= j < k && all@[j] == q && self.in_bounds(q),
            decreases all@.len() - k,
        {
            let q = all[k];
            if self.is_on_grid(q) {
                proof {
                    if out@.contains(q) {
                        let j = choose|j: int| 0 <= j < k && all@[j] == q && self.in_bounds(q);
                        assert(all@[j] == all@[k as int]);
                        assert(false);
                    }
                }
                let ghost out_old = out@;
                out.push(q);
                proof {
                    assert forall|q2: Point| #[trigger] out@.contains(q2)
                        implies exists|j: int|
                            0 <= j < k + 1 && all@[j] == q2 && self.in_bounds(q2) by {
                        let i = choose|i: int| 0 <= i < out@.len() && out@[i] == q2;
                        if i < out@.len() - 1 {
                            assert(out_old[i] == q2);
                            assert(out_old.contains(q2));
                            let j = choose|j: int|
                                0 <= j < k && all@[j] == q2 && self.in_bounds(q2);
                            assert(0 <= j < k + 1 && all@[j] == q2 && self.in_bounds(q2));
                        } else {
                            assert(q2 == q);
                            assert(all@[k as int] == q2 && self.in_bounds(q2));
                        }
                    }
                    assert forall|q2: Point|
                        (exists|j: int| 0 <= j < k + 1 && all@[j] == q2 && self.in_bounds(q2))
                        implies #[trigger] out@.contains(q2) by {
                        let j = choose|j: int|
                            0 <= j < k + 1 && all@[j] == q2 && self.in_bounds(q2);
                        if j < k {
                            assert(out_old.contains(q2));
                            let i = choose|i: int| 0 <= i < out_old.len() && out_old[i] == q2;
                            assert(out@[i] == q2);
                        } else {
                            assert(out@[out@.len() - 1] == q2);
                        }
                    }
                }
            } else {
                proof {
                    assert forall|q2: Point|
                        (exists|j: int| 0 <= j < k + 1 && all@[j] == q2 && self.in_bounds(q2))
                        implies #[trigger] out@.contains(q2) by {
                        let j = choose|j: int|
                            0 <= j < k + 1 && all@[j] == q2 && self.in_bounds(q2);
                        assert(j < k);
                    }
                }
            }
            k = k + 1;
        }
        proof {
            assert forall|q: Point| #[trigger] out@.contains(q)
                implies adjacent(*point, q) && self.in_bounds(q) by {
                let j = choose|j: int| 0 <= j < all@.len() && all@[j] == q && self.in_bounds(q);
                assert(all@.contains(q));
            }
            assert forall|q: Point| adjacent(*point, q) && self.in_bounds(q)
                implies #[trigger] out@.contains(q) by {
                assert(all@.contains(q));
                let j = choose|j: int| 0 <= j < all@.len() && all@[j] == q;
            }
        }
        out
    }

    /// The stones of the group a play would create: the played point
    /// together with every stone of each adjacent same-color group.
    fn merged_stones(&self, point: Point, own_ids: &Vec<usize>) -> (r: Vec<Point>)
        requires
            self.wf_occ(),
            self.in_bounds(point),
            self.id_at(point) is None,
            own_ids@.no_duplicates(),
            forall|j: int| 0 <= j < own_ids@.len() ==> self.live(#[trigger] own_ids@[j] as int),
        ensures
            r@.no_duplicates(),
            r@.len() >= 1,
            forall|p: Point| #[trigger] r@.contains(p)
                <==> (p == point || exists|j: int|
                    0 <= j < own_ids@.len()
                        && self.string_at(own_ids@[j] as int).spec_stones().contains(p)),
            forall|k: int| 0 <= k < r@.len() ==> self.in_bounds(#[trigger] r@[k]),
    {
        let mut out: Vec<Point> = Vec::new();
        out.push(point);
        proof {
            assert(out@[0] == point);
            assert forall|p: Point| #[trigger] out@.contains(p) implies p == point by {
                let i = choose|i: int| 0 <= i < out@.len() && out@[i] == p;
            }
        }
        let mut j: usize = 0;
        while j < own_ids.len()
            invariant
                0 <= j <= own_ids@.len(),
                self.wf_occ(),
                self.in_bounds(point),
                self.id_at(point) is None,
                own_ids@.no_duplicates(),
                forall|j2: int| 0 <= j2 < own_ids@.len() ==> self.live(#[trigger] own_ids@[j2] as int),
                out@.no_duplicates(),
                out@.len() >= 1,
                forall|p: Point| #[trigger] out@.contains(p)
                    <==> (p == point || exists|j2: int|
                        0 <= j2 < j
                            && self.string_at(own_ids@[j2] as int).spec_stones().contains(p)),
                forall|k: int| 0 <= k < out@.len() ==> self.in_bounds(#[trigger] out@[k]),
            decreases own_ids@.len() - j,
        {
            let id = own_ids[j];
            match &self.strings[id] {
                Some(g) => {
                    let ghost gj = j as int;
                    let mut k: usize = 0;
                    while k < g.stones.len()
                        invariant
                            0 <= k <= g.stones@.len(),
                            0 <= gj < own_ids@.len(),
                            id == own_ids@[gj],
                            self.wf_occ(),
                            self.in_bounds(point),
                            self.id_at(point) is None,
                            own_ids@.no_duplicates(),
                            forall|j2: int|
                                0 <= j2 < own_ids@.len()
                                    ==> self.live(#[trigger] own_ids@[j2] as int),
                            self.live(id as int),
                            *g == self.string_at(id as int),
                            out@.no_duplicates(),
                            out@.len() >= 1,
                            forall|p: Point| #[trigger] out@.contains(p)
                                <==> (p == point || (exists|j2: int|
                                    0 <= j2 < gj
                                        && self.string_at(own_ids@[j2] as int)
                                            .spec_stones().contains(p))
                                    || g.spec_stones().subrange(0, k as int).contains(p)),
                            forall|m: int| 0 <= m < out@.len() ==> self.in_bounds(#[trigger] out@[m]),
                        decreases g.stones@.len() - k,
                    {
                        let p = g.stones[k];
                        proof {
                            assert(self.wf_string_occ(id as int));
                            assert(g.spec_stones()[k as int] == p);
                            assert(self.in_bounds(p) && self.id_at(p) == Some(id));
                            if out@.contains(p) {
                                if p == point {
                                    assert(false);
                                } else if exists|j2: int|
                                    0 <= j2 < gj
                                        && self.string_at(own_ids@[j2] as int)
                                            .spec_stones().contains(p) {
                                    let j2 = choose|j2: int|
                                        0 <= j2 < gj
                                            && self.string_at(own_ids@[j2] as int)
                                                .spec_stones().contains(p);
                                    assert(self.wf_string_occ(own_ids@[j2] as int));
                                    let s = self.string_at(own_ids@[j2] as int).spec_stones();
                                    let m = choose|m: int| 0 <= m < s.len() && s[m] == p;
                                    assert(self.id_at(p) == Some(own_ids@[j2]));
                                    assert(own_ids@[j2] == own_ids@[gj]);
                                    assert(false);
                                } else {
                                    let s2 = g.spec_stones().subrange(0, k as int);
                                    let m = choose|m: int| 0 <= m < s2.len() && s2[m] == p;
                                    assert(g.spec_stones()[m] == p);
                                    assert(g.spec_stones().no_duplicates());
                                    assert(false);
                                }
                            }
                        }
                        let ghost out_old = out@;
                        out.push(p);
                        proof {
                            assert forall|p2: Point| #[trigger] out@.contains(p2)
                                implies (p2 == point || (exists|j2: int|
                                    0 <= j2 < gj
                                        && self.string_at(own_ids@[j2] as int)
                                            .spec_stones().contains(p2))
                                    || g.spec_stones().subrange(0, k + 1).contains(p2)) by {
                                let i = choose|i: int| 0 <= i < out@.len() && out@[i] == p2;
                                if i < out@.len() - 1 {
                                    assert(out_old[i] == p2);
                                    assert(out_old.contains(p2));
                                    if g.spec_stones().subrange(0, k as int).contains(p2) {
                                        let m = choose|m: int|
                                            0 <= m < k && #[trigger] g.spec_stones().subrange(
                                                0,
                                                k as int,
                                            )[m] == p2;
                                        assert(g.spec_stones().subrange(0, k + 1)[m] == p2);
                                    }
                                } else {
                                    assert(p2 == p);
                                    assert(g.spec_stones().subrange(0, k + 1)[k as int] == p2);
                                }
                            }
                            assert forall|p2: Point| (p2 == point || (exists|j2: int|
                                    0 <= j2 < gj
                                        && self.string_at(own_ids@[j2] as int)
                                            .spec_stones().contains(p2))
                                    || g.spec_stones().subrange(0, k + 1).contains(p2))
                                implies #[trigger] out@.contains(p2) by {
                                if g.spec_stones().subrange(0, k + 1).contains(p2) {
                                    let m = choose|m: int|
                                        0 <= m < k + 1 && #[trigger] g.spec_stones().subrange(
                                            0,
                                            k + 1,
                                        )[m] == p2;
                                    if m < k {
                                        assert(g.spec_stones().subrange(0, k as int)[m] == p2);
                                        assert(out_old.contains(p2));
                                        let i = choose|i: int|
                                            0 <= i < out_old.len() && out_old[i] == p2;
                                        assert(out@[i] == p2);
                                    } else {
                                        assert(p2 == p);
                                        assert(out@[out@.len() - 1] == p2);
                                    }
                                } else {
                                    assert(out_old.contains(p2));
                                    let i = choose|i: int|
                                        0 <= i < out_old.len() && out_old[i] == p2;
                                    assert(out@[i] == p2);
                                }
                            }
                            assert forall|m: int| 0 <= m < out@.len()
                                implies self.in_bounds(#[trigger] out@[m]) by {
                                if m < out@.len() - 1 {
                                    assert(out@[m] == out_old[m]);
                                }
                            }
                        }
                        k = k + 1;
                    }
                    proof {
                        assert(g.spec_stones().subrange(0, g.stones@.len() as int)
                            =~= g.spec_stones());
                        assert forall|p: Point| #[trigger] out@.contains(p)
                            implies (p == point || exists|j2: int|
                                0 <= j2 < gj + 1
                                    && self.string_at(own_ids@[j2] as int)
                                        .spec_stones().contains(p)) by {
                            if p != point {
                                if g.spec_stones().contains(p) {
                                    assert(self.string_at(own_ids@[gj] as int)
                                        .spec_stones().contains(p));
                                }
                            }
                        }
                    }
                },
                None => {
                    proof {
                        assert(self.live(id as int));
                        assert(false);
                    }
                },
            }
            j = j + 1;
        }
        proof {
            assert(out@.contains(point));
        }
        out
    }
}

impl Board {
    /// The duplicate-free list of liberties of a hypothetical group with
    /// the given stones, read off a raw grid: exactly the empty in-range
    /// points adjacent to at least one of the stones.
    fn libs_of(grid: &Vec<Option<usize>>, size: usize, stones: &Vec<Point>) -> (r: Vec<Point>)
        requires
            size * size <= usize::MAX,
            grid@.len() == size * size,
            forall|k: int| 0 <= k < stones@.len() ==> in_range(size as int, #[trigger] stones@[k]),
        ensures
            r@.no_duplicates(),
            forall|p: Point| #[trigger] r@.contains(p) <==> (in_range(size as int, p)
                && grid@[pidx(size as int, p)] is None && exists|k: int|
                0 <= k < stones@.len() && adjacent(stones@[k], p)),
    {
        let mut out: Vec<Point> = Vec::new();
        let mut k: usize = 0;
        while k < stones.len()
            invariant
                0 <= k <= stones@.len(),
                size * size <= usize::MAX,
                grid@.len() == size * size,
                forall|k2: int|
                    0 <= k2 < stones@.len() ==> in_range(size as int, #[trigger] stones@[k2]),
                out@.no_duplicates(),
                forall|p: Point| #[trigger] out@.contains(p) <==> (in_range(size as int, p)
                    && grid@[pidx(size as int, p)] is None && exists|k2: int|
                    0 <= k2 < k && adjacent(stones@[k2], p)),
            decreases stones@.len() - k,
        {
            let s = stones[k];
            proof {
                assert(in_range(size as int, stones@[k as int]));
                assert(s.0 < usize::MAX && s.1 < usize::MAX) by (nonlinear_arith)
                    requires
                        s.0 < size,
                        s.1 < size,
                        size * size <= usize::MAX,
                ;
            }
            let ns = s.neighbors();
            let mut t: usize = 0;
            while t < ns.len()
                invariant
                    0 <= t <= ns@.len(),
                    0 <= k < stones@.len(),
                    s == stones@[k as int],
                    size * size <= usize::MAX,
                    grid@.len() == size * size,
                    forall|k2: int|
                        0 <= k2 < stones@.len() ==> in_range(size as int, #[trigger] stones@[k2]),
                    ns@.no_duplicates(),
                    forall|q: Point| #[trigger] ns@.contains(q) <==> adjacent(s, q),
                    out@.no_duplicates(),
                    forall|p: Point| #[trigger] out@.contains(p) <==> (in_range(size as int, p)
                        && grid@[pidx(size as int, p)] is None && ((exists|k2: int|
                        0 <= k2 < k && adjacent(stones@[k2], p)) || (adjacent(s, p)
                        && exists|t2: int| 0 <= t2 < t && ns@[t2] == p))),
                decreases ns@.len() - t,
            {
                let q = ns[t];
                proof {
                    assert(ns@.contains(q));
                }
                if q.0 < size && q.1 < size {
                    proof {
                        lemma_idx_bound(size as int, q);
                    }
                    let qi = q.0 * size + q.1;
                    if grid[qi].is_none() && !contains_point(&out, q) {
                        let ghost out_old = out@;
                        out.push(q);
                        proof {
                            assert forall|p: Point| #[trigger] out@.contains(p)
                                implies (in_range(size as int, p)
                                    && grid@[pidx(size as int, p)] is None && ((exists|k2: int|
                                    0 <= k2 < k && adjacent(stones@[k2], p)) || (adjacent(s, p)
                                    && exists|t2: int| 0 <= t2 < t + 1 && ns@[t2] == p))) by {
                                let i = choose|i: int| 0 <= i < out@.len() && out@[i] == p;
                                if i < out@.len() - 1 {
                                    assert(out_old[i] == p);
                                    assert(out_old.contains(p));
                                } else {
                                    assert(p == q);
                                    assert(ns@[t as int] == p);
                                }
                            }
                            assert forall|p: Point| (in_range(size as int, p)
                                    && grid@[pidx(size as int, p)] is None && ((exists|k2: int|
                                    0 <= k2 < k && adjacent(stones@[k2], p)) || (adjacent(s, p)
                                    && exists|t2: int| 0 <= t2 < t + 1 && ns@[t2] == p)))
                                implies #[trigger] out@.contains(p) by {
                                if p == q {
                                    assert(out@[out@.len() - 1] == p);
                                } else {
                                    if adjacent(s, p) && exists|t2: int|
                                        0 <= t2 < t + 1 && ns@[t2] == p {
                                        let t2 = choose|t2: int|
                                            0 <= t2 < t + 1 && ns@[t2] == p;
                                        assert(t2 < t);
                                    }
                                    assert(out_old.contains(p));
                                    let i = choose|i: int|
                                        0 <= i < out_old.len() && out_old[i] == p;
                                    assert(out@[i] == p);
                                }
                            }
                        }
                    } else {
                        proof {
                            assert forall|p: Point| (in_range(size as int, p)
                                    && grid@[pidx(size as int, p)] is None && ((exists|k2: int|
                                    0 <= k2 < k && adjacent(stones@[k2], p)) || (adjacent(s, p)
                                    && exists|t2: int| 0 <= t2 < t + 1 && ns@[t2] == p)))
                                implies #[trigger] out@.contains(p) by {
                                if p == q {
                                    assert(grid@[pidx(size as int, q)] is None);
                                } else if adjacent(s, p) && exists|t2: int|
                                    0 <= t2 < t + 1 && ns@[t2] == p {
                                    let t2 = choose|t2: int| 0 <= t2 < t + 1 && ns@[t2] == p;
                                    assert(t2 < t);
                                }
                            }
                        }
                    }
                } else {
                    proof {
                        assert forall|p: Point| (in_range(size as int, p)
                                && grid@[pidx(size as int, p)] is None && ((exists|k2: int|
                                0 <= k2 < k && adjacent(stones@[k2], p)) || (adjacent(s, p)
                                && exists|t2: int| 0 <= t2 < t + 1 && ns@[t2] == p)))
                            implies #[trigger] out@.contains(p) by {
                            if p != q && adjacent(s, p) && exists|t2: int|
                                0 <= t2 < t + 1 && ns@[t2] == p {
                                let t2 = choose|t2: int| 0 <= t2 < t + 1 && ns@[t2] == p;
                                assert(t2 < t);
                            }
                        }
                    }
                }
                t = t + 1;
            }
            proof {
                assert forall|p: Point| #[trigger] out@.contains(p)
                    implies (in_range(size as int, p) && grid@[pidx(size as int, p)] is None
                        && exists|k2: int| 0 <= k2 < k + 1 && adjacent(stones@[k2], p)) by {}
                assert forall|p: Point| (in_range(size as int, p)
                        && grid@[pidx(size as int, p)] is None && exists|k2: int|
                        0 <= k2 < k + 1 && adjacent(stones@[k2], p))
                    implies #[trigger] out@.contains(p) by {
                    let k2 = choose|k2: int| 0 <= k2 < k + 1 && adjacent(stones@[k2], p);
                    if k2 == k {
                        assert(ns@.contains(p));
                        let t2 = choose|t2: int| 0 <= t2 < ns@.len() && ns@[t2] == p;
                    }
                }
            }
            k = k + 1;
        }
        out
    }

    /// Rebuilds the recorded liberty list of every live group from the
    /// grid, leaving occupancy, membership and colors untouched; restores
    /// the full invariant from a state whose occupancy bookkeeping is
    /// already consistent.
    fn recompute_all_liberties(&mut self)
        requires
            old(self).wf_occ(),
        ensures
            final(self).well_formed(),
            final(self).spec_size() == old(self).spec_size(),
            final(self).grid@ == old(self).grid@,
            final(self).strings@.len() == old(self).strings@.len(),
            forall|s: int| final(self).live(s) == old(self).live(s),
            forall|s: int| #[trigger] old(self).live(s)
                ==> final(self).string_at(s).spec_stones() == old(self).string_at(s).spec_stones()
                    && final(self).string_at(s).spec_color()
                    == old(self).string_at(s).spec_color(),
            forall|p: Point| final(self).occupant(p) == old(self).occupant(p),
    {
        let ghost b0 = *old(self);
        let n = self.strings.len();
        let mut id: usize = 0;
        while id < n
            invariant
                0 <= id <= n,
                n == self.strings@.len(),
                b0.wf_occ(),
                self.wf_occ(),
                self.spec_size() == b0.spec_size(),
                self.grid@ == b0.grid@,
                self.strings@.len() == b0.strings@.len(),
                forall|s: int| self.live(s) == b0.live(s),
                forall|s: int| #[trigger] b0.live(s)
                    ==> self.string_at(s).spec_stones() == b0.string_at(s).spec_stones()
                        && self.string_at(s).spec_color() == b0.string_at(s).spec_color(),
                forall|s: int| 0 <= s < id && #[trigger] self.live(s) ==> self.wf_libs_string(s),
            decreases n - id,
        {
            let info: Option<(Color, Vec<Point>)> = match &self.strings[id] {
                Some(g) => Some((g.color, copy_points(&g.stones))),
                None => None,
            };
            match info {
                Some(cs) => {
                    let (c, stones_c) = cs;
                    proof {
                        assert(self.live(id as int));
                        assert(self.wf_string_occ(id as int));
                        assert(stones_c@ == self.string_at(id as int).spec_stones());
                        assert forall|k: int| 0 <= k < stones_c@.len()
                            implies in_range(self.size as int, #[trigger] stones_c@[k]) by {
                            assert(self.in_bounds(self.string_at(id as int).spec_stones()[k]));
                        }
                    }
                    let libs = Board::libs_of(&self.grid, self.size, &stones_c);
                    let ghost prev = *self;
                    let ghost stones_v = stones_c@;
                    let ghost libs_v = libs@;
                    self.strings.set(id, Some(GoString::new(c, stones_c, libs)));
                    proof {
                        assert(self.strings@ == prev.strings@.update(
                            id as int,
                            Some(self.string_at(id as int)),
                        ));
                        assert forall|s: int| self.live(s) == prev.live(s) by {}
                        lemma_wf_occ_frame(prev, *self);
                        assert forall|s: int| 0 <= s < id + 1 && #[trigger] self.live(s)
                            implies self.wf_libs_string(s) by {
                            if s < id {
                                assert(self.strings@[s] == prev.strings@[s]);
                                assert(prev.live(s));
                                assert(prev.wf_libs_string(s));
                                assert(self.string_at(s) == prev.string_at(s));
                                lemma_wf_libs_string_frame(prev, *self, s);
                            } else {
                                let g = self.string_at(id as int);
                                assert(g.spec_stones() == stones_v);
                                assert(g.spec_liberties() == libs_v);
                                assert forall|k: int| 0 <= k < g.spec_liberties().len()
                                    implies {
                                        let p = #[trigger] g.spec_liberties()[k];
                                        self.in_bounds(p) && self.id_at(p) is None
                                            && adj_to_group(g, p)
                                    } by {
                                    let p = g.spec_liberties()[k];
                                    assert(libs_v.contains(p));
                                    lemma_idx_bound(self.size as int, p);
                                    let k2 = choose|k2: int|
                                        0 <= k2 < stones_v.len() && adjacent(stones_v[k2], p);
                                    assert(adjacent(g.spec_stones()[k2], p));
                                }
                                assert forall|p: Point|
                                    self.in_bounds(p) && self.id_at(p) is None
                                        && #[trigger] adj_to_group(g, p)
                                    implies g.spec_liberties().contains(p) by {
                                    lemma_idx_bound(self.size as int, p);
                                    let k2 = choose|k2: int|
                                        0 <= k2 < g.spec_stones().len()
                                            && adjacent(g.spec_stones()[k2], p);
                                    assert(adjacent(stones_v[k2], p));
                                    assert(libs_v.contains(p));
                                }
                            }
                        }
                    }
                },
                None => {
                    proof {
                        assert(!self.live(id as int));
                    }
                },
            }
            id = id + 1;
        }
        proof {
            assert forall|s: int| #[trigger] self.live(s) implies self.wf_libs_string(s) by {
                assert(0 <= s < n);
            }
            assert forall|p: Point| self.occupant(p) == b0.occupant(p) by {
                if self.id_at(p) is Some {
                    let sid = self.id_at(p)->0 as int;
                    assert(self.live(sid));
                }
            }
        }
    }
}

/// On a well-formed board, an empty point adjacent to an occupied point is
/// recorded as a liberty of the occupant's group.
proof fn lemma_adjacent_group_has_point_liberty(b: Board, point: Point, q: Point)
    requires
        b.well_formed(),
        b.in_bounds(point),
        b.id_at(point) is None,
        adjacent(point, q),
        b.id_at(q) is Some,
    ensures
        b.group_at(q).spec_liberties().contains(point),
{
    let id = b.id_at(q)->0 as int;
    assert(b.live(id) && b.string_at(id).spec_stones().contains(q));
    let g = b.string_at(id);
    let k = choose|k: int| 0 <= k < g.spec_stones().len() && g.spec_stones()[k] == q;
    assert(adjacent(g.spec_stones()[k], point));
    assert(adj_to_group(g, point));
    assert(b.wf_libs_string(id));
}

impl Board {
    /// Places a stone of `color` on `point`.
    ///
    /// Fails with `OffBoard` exactly when the point is out of bounds, with
    /// `Occupied` exactly when it holds a stone, and with `Suicide` exactly
    /// when the play is not legal (the merged group would have no liberty
    /// and nothing is captured); on any failure the board is unchanged.
    /// On success the played point holds the new stone, every stone of each
    /// adjacent opposing group whose last liberty was `point` is removed —
    /// the capture decision is made against liberty sets as they stood
    /// before the stone went down — every other point is unchanged, and the
    /// board invariant still holds.
    #[verifier::rlimit(100)]
    pub fn place_stone(&mut self, color: Color, point: Point) -> (r: Result<(), IllegalMove>)
        requires
            old(self).well_formed(),
        ensures
            final(self).well_formed(),
            final(self).spec_size() == old(self).spec_size(),
            r is Err ==> *final(self) == *old(self),
            (r == Err::<(), IllegalMove>(IllegalMove::OffBoard)) <==> !old(self).in_bounds(point),
            (r == Err::<(), IllegalMove>(IllegalMove::Occupied)) <==> (old(self).in_bounds(point)
                && old(self).occupant(point) is Some),
            (r == Err::<(), IllegalMove>(IllegalMove::Suicide)) <==> (old(self).in_bounds(point)
                && old(self).occupant(point) is None && !old(self).legal_play(color, point)),
            r is Ok <==> old(self).legal_play(color, point),
            r is Ok ==> final(self).occupant(point) == Some(color),
            r is Ok ==> forall|q: Point|
                old(self).in_bounds(q) && q != point ==> final(self).occupant(q) == (
                if old(self).occupant(q) == Some(color.opposite()) && old(self).group_captured_by(
                    q,
                    point,
                ) {
                    None::<Color>
                } else {
                    old(self).occupant(q)
                }),
    {
        if !self.is_on_grid(point) {
            return Err(IllegalMove::OffBoard);
        }
        let i0 = self.point_to_index(&point);
        if self.grid[i0].is_some() {
            proof {
                assert(self.id_at(point) is Some);
            }
            return Err(IllegalMove::Occupied);
        }
        proof {
            assert(self.id_at(point) is None);
        }

        let ns = self.neighbors(&point);
        let mut own_ids: Vec<usize> = Vec::new();
        let mut captured_ids: Vec<usize> = Vec::new();
        let mut has_liberty = false;
        let mut kill = false;
        let mut t: usize = 0;
        while t < ns.len()
            invariant
                0 <= t <= ns@.len(),
                self.well_formed(),
                self.in_bounds(point),
                self.id_at(point) is None,
                forall|q: Point| #[trigger] ns@.contains(q) <==> adjacent(point, q)
                    && self.in_bounds(q),
                forall|t2: int| 0 <= t2 < ns@.len() ==> ns@.contains(#[trigger] ns@[t2]),
                own_ids@.no_duplicates(),
                forall|j: int| 0 <= j < own_ids@.len() ==> self.live(#[trigger] own_ids@[j] as int)
                    && self.string_at(own_ids@[j] as int).spec_color() == color,
                forall|j: int| 0 <= j < own_ids@.len() ==> exists|t2: int|
                    0 <= t2 < t && self.id_at(ns@[t2]) == Some(#[trigger] own_ids@[j]),
                forall|t2: int| 0 <= t2 < t && #[trigger] self.occupant(ns@[t2]) == Some(color)
                    ==> own_ids@.contains(self.id_at(ns@[t2])->0),
                captured_ids@.no_duplicates(),
                forall|j: int| 0 <= j < captured_ids@.len()
                    ==> self.live(#[trigger] captured_ids@[j] as int)
                        && self.string_at(captured_ids@[j] as int).spec_color()
                        == color.opposite() && self.string_at(
                        captured_ids@[j] as int,
                    ).spec_liberties().len() == 1,
                forall|j: int| 0 <= j < captured_ids@.len() ==> exists|t2: int|
                    0 <= t2 < t && self.id_at(ns@[t2]) == Some(#[trigger] captured_ids@[j]),
                forall|t2: int|
                    0 <= t2 < t && #[trigger] self.occupant(ns@[t2]) == Some(color.opposite())
                        && self.group_at(ns@[t2]).spec_liberties().len() == 1
                        ==> captured_ids@.contains(self.id_at(ns@[t2])->0),
                has_liberty == ((exists|t2: int|
                    0 <= t2 < t && (#[trigger] self.id_at(ns@[t2])) is None) || (exists|t2: int|
                    0 <= t2 < t && self.occupant(ns@[t2]) == Some(color) && exists|k: int|
                        0 <= k < self.group_at(ns@[t2]).spec_liberties().len()
                            && self.group_at(ns@[t2]).spec_liberties()[k] != point)),
                kill == (exists|t2: int|
                    0 <= t2 < t && self.occupant(ns@[t2]) == Some(color.opposite())
                        && self.group_at(ns@[t2]).spec_liberties().len() == 1),
            decreases ns@.len() - t,
        {
            let q = ns[t];
            proof {
                assert(ns@.contains(q));
            }
            let qi = self.point_to_index(&q);
            match self.grid[qi] {
                None => {
                    proof {
                        assert(self.id_at(ns@[t as int]) is None);
                    }
                    has_liberty = true;
                },
                Some(id) => {
                    proof {
                        assert(self.id_at(q) == Some(id));
                        assert(self.live(id as int));
                    }
                    match &self.strings[id] {
                        Some(g) => {
                            proof {
                                assert(*g == self.string_at(id as int));
                                assert(self.occupant(q) == Some(g.spec_color()));
                                assert(self.group_at(q) == *g);
                            }
                            if g.color == color {
                                if !contains_id(&own_ids, id) {
                                    let ghost oo = own_ids@;
                                    own_ids.push(id);
                                    proof {
                                        assert(own_ids@[own_ids@.len() - 1] == id);
                                        assert(own_ids@.contains(id));
                                        assert forall|x: usize| oo.contains(x)
                                            implies own_ids@.contains(x) by {
                                            let i = choose|i: int|
                                                0 <= i < oo.len() && oo[i] == x;
                                            assert(own_ids@[i] == x);
                                        }
                                        assert forall|j: int| 0 <= j < own_ids@.len()
                                            implies exists|t2: int|
                                                0 <= t2 < t + 1 && self.id_at(ns@[t2]) == Some(
                                                #[trigger] own_ids@[j],
                                            ) by {
                                            if j < own_ids@.len() - 1 {
                                                let t2 = choose|t2: int|
                                                    0 <= t2 < t && self.id_at(ns@[t2]) == Some(
                                                        own_ids@[j],
                                                    );
                                                assert(0 <= t2 < t + 1 && self.id_at(ns@[t2])
                                                    == Some(own_ids@[j]));
                                            } else {
                                                assert(self.id_at(ns@[t as int]) == Some(
                                                    own_ids@[j],
                                                ));
                                            }
                                        }
                                    }
                                }
                                if g.has_other_liberty(point) {
                                    has_liberty = true;
                                }
                                proof {
                                    assert(self.occupant(ns@[t as int]) == Some(color));
                                }
                            } else {
                                proof {
                                    assert(g.spec_color() == color.opposite());
                                    assert(self.occupant(ns@[t as int]) == Some(
                                        color.opposite(),
                                    ));
                                }
                                if g.num_liberties() == 1 {
                                    kill = true;
                                    if !contains_id(&captured_ids, id) {
                                        let ghost co = captured_ids@;
                                        captured_ids.push(id);
                                        proof {
                                            assert(captured_ids@[captured_ids@.len() - 1]
                                                == id);
                                            assert(captured_ids@.contains(id));
                                            assert forall|x: usize| co.contains(x)
                                                implies captured_ids@.contains(x) by {
                                                let i = choose|i: int|
                                                    0 <= i < co.len() && co[i] == x;
                                                assert(captured_ids@[i] == x);
                                            }
                                            assert forall|j: int| 0 <= j < captured_ids@.len()
                                                implies exists|t2: int|
                                                    0 <= t2 < t + 1 && self.id_at(ns@[t2])
                                                        == Some(
                                                        #[trigger] captured_ids@[j],
                                                    ) by {
                                                if j < captured_ids@.len() - 1 {
                                                    let t2 = choose|t2: int|
                                                        0 <= t2 < t && self.id_at(ns@[t2])
                                                            == Some(captured_ids@[j]);
                                                    assert(0 <= t2 < t + 1 && self.id_at(
                                                        ns@[t2],
                                                    ) == Some(captured_ids@[j]));
                                                } else {
                                                    assert(self.id_at(ns@[t as int]) == Some(
                                                        captured_ids@[j],
                                                    ));
                                                }
                                            }
                                        }
                                    }
                                }
                            }
                        },
                        None => {
                            proof {
                                assert(false);
                            }
                        },
                    }
                },
            }
            t = t + 1;
        }

        let ghost b0 = *self;

        proof {
            // The flags decide legality.
            if has_liberty || kill {
                if exists|t2: int|
                    0 <= t2 < ns@.len() && (#[trigger] self.id_at(ns@[t2])) is None {
                    let t2 = choose|t2: int|
                        0 <= t2 < ns@.len() && (#[trigger] self.id_at(ns@[t2])) is None;
                    let q = ns@[t2];
                    assert(ns@.contains(q));
                    assert(adjacent(point, q) && self.in_bounds(q) && self.occupant(q) is None);
                } else if has_liberty {
                    let t2 = choose|t2: int|
                        0 <= t2 < ns@.len() && self.occupant(ns@[t2]) == Some(color)
                            && exists|k: int|
                            0 <= k < self.group_at(ns@[t2]).spec_liberties().len()
                                && self.group_at(ns@[t2]).spec_liberties()[k] != point;
                    let q = ns@[t2];
                    assert(ns@.contains(q));
                    assert(adjacent(point, q));
                } else {
                    let t2 = choose|t2: int|
                        0 <= t2 < ns@.len() && self.occupant(ns@[t2]) == Some(color.opposite())
                            && self.group_at(ns@[t2]).spec_liberties().len() == 1;
                    let q = ns@[t2];
                    assert(ns@.contains(q));
                    lemma_adjacent_group_has_point_liberty(*self, point, q);
                    let i = choose|i: int|
                        0 <= i < self.group_at(q).spec_liberties().len() && self.group_at(
                            q,
                        ).spec_liberties()[i] == point;
                    assert(self.group_captured_by(q, point));
                }
                assert(self.legal_play(color, point));
            }
            if self.legal_play(color, point) {
                if exists|q: Point|
                    adjacent(point, q) && self.in_bounds(q) && self.occupant(q) is None {
                    let q = choose|q: Point|
                        adjacent(point, q) && self.in_bounds(q) && self.occupant(q) is None;
                    assert(ns@.contains(q));
                    let t2 = choose|t2: int| 0 <= t2 < ns@.len() && ns@[t2] == q;
                    assert(self.id_at(ns@[t2]) is None);
                    assert(has_liberty);
                } else if exists|q: Point|
                    adjacent(point, q) && self.occupant(q) == Some(color) && exists|k: int|
                        0 <= k < self.group_at(q).spec_liberties().len() && self.group_at(
                            q,
                        ).spec_liberties()[k] != point {
                    let q = choose|q: Point|
                        adjacent(point, q) && self.occupant(q) == Some(color) && exists|k: int|
                            0 <= k < self.group_at(q).spec_liberties().len() && self.group_at(
                                q,
                            ).spec_liberties()[k] != point;
                    assert(self.in_bounds(q));
                    assert(ns@.contains(q));
                    let t2 = choose|t2: int| 0 <= t2 < ns@.len() && ns@[t2] == q;
                    assert(self.occupant(ns@[t2]) == Some(color));
                    assert(has_liberty);
                } else {
                    let q = choose|q: Point|
                        adjacent(point, q) && self.occupant(q) == Some(color.opposite())
                            && self.group_captured_by(q, point);
                    assert(self.in_bounds(q));
                    assert(ns@.contains(q));
                    let t2 = choose|t2: int| 0 <= t2 < ns@.len() && ns@[t2] == q;
                    assert(self.occupant(ns@[t2]) == Some(color.opposite()));
                    assert(self.group_at(ns@[t2]).spec_liberties().len() == 1);
                    assert(kill);
                }
            }
            // Captured slots are exactly those of adjacent opposing groups
            // whose last liberty is the played point.
            assert forall|q: Point| self.occupant(q) == Some(color.opposite())
                implies (self.group_captured_by(q, point) <==> captured_ids@.contains(
                    self.id_at(q)->0,
                )) by {
                let d = self.id_at(q)->0;
                assert(self.live(d as int) && self.string_at(d as int).spec_stones().contains(q));
                let g = self.string_at(d as int);
                if self.group_captured_by(q, point) {
                    assert(g.spec_liberties()[0] == point);
                    assert(self.wf_libs_string(d as int));
                    assert(adj_to_group(g, point));
                    let k2 = choose|k2: int|
                        0 <= k2 < g.spec_stones().len() && adjacent(g.spec_stones()[k2], point);
                    let s = g.spec_stones()[k2];
                    assert(self.id_at(s) == Some(d));
                    assert(adjacent(point, s) && self.in_bounds(s));
                    assert(ns@.contains(s));
                    let t2 = choose|t2: int| 0 <= t2 < ns@.len() && ns@[t2] == s;
                    assert(self.occupant(ns@[t2]) == Some(color.opposite()));
                    assert(self.group_at(ns@[t2]).spec_liberties().len() == 1);
                    assert(captured_ids@.contains(self.id_at(q)->0));
                }
                if captured_ids@.contains(d) {
                    let j = choose|j: int|
                        0 <= j < captured_ids@.len() && captured_ids@[j] == d;
                    let t2 = choose|t2: int|
                        0 <= t2 < ns@.len() && self.id_at(ns@[t2]) == Some(captured_ids@[j]);
                    assert(self.string_at(captured_ids@[j] as int).spec_liberties().len() == 1);
                    assert(g.spec_liberties().len() == 1);
                    lemma_adjacent_group_has_point_liberty(*self, point, ns@[t2]);
                    let i = choose|i: int|
                        0 <= i < g.spec_liberties().len() && g.spec_liberties()[i] == point;
                    assert(g.spec_liberties()[0] == point);
                    assert(self.group_captured_by(q, point));
                }
            }
        }

        if !has_liberty && !kill {
            proof {
                assert(!self.legal_play(color, point));
            }
            return Err(IllegalMove::Suicide);
        }

        // Commit.  Build the merged stone list, retire the merged-away own
        // slots, write the new group's cells, append the new slot, clear
        // each captured group, and finally rebuild all liberty lists.
        let merged = self.merged_stones(point, &own_ids);
        let ghost merged_v = merged@;

        let mut j: usize = 0;
        while j < own_ids.len()
            invariant
                0 <= j <= own_ids@.len(),
                own_ids@.no_duplicates(),
                forall|j2: int| 0 <= j2 < own_ids@.len()
                    ==> b0.live(#[trigger] own_ids@[j2] as int),
                self.size == b0.size,
                self.grid@ == b0.grid@,
                self.strings@.len() == b0.strings@.len(),
                forall|s: int|
                    0 <= s < self.strings@.len() && (forall|j2: int|
                        0 <= j2 < j ==> (#[trigger] own_ids@[j2]) as int != s)
                        ==> #[trigger] self.strings@[s] == b0.strings@[s],
                forall|j2: int| 0 <= j2 < j
                    ==> self.strings@[#[trigger] own_ids@[j2] as int] is None,
            decreases own_ids@.len() - j,
        {
            let id = own_ids[j];
            proof {
                assert(b0.live(own_ids@[j as int] as int));
            }
            self.strings.set(id, None);
            j = j + 1;
        }

        let new_id = self.strings.len();
        let ghost m1 = *self;
        let mut k: usize = 0;
        while k < merged.len()
            invariant
                0 <= k <= merged@.len(),
                merged@ == merged_v,
                merged@.no_duplicates(),
                b0.wf_occ(),
                self.size == b0.size,
                self.strings@ == m1.strings@,
                self.grid@.len() == b0.grid@.len(),
                forall|k2: int| 0 <= k2 < merged@.len()
                    ==> b0.in_bounds(#[trigger] merged@[k2]),
                forall|k2: int| 0 <= k2 < k
                    ==> self.id_at(#[trigger] merged@[k2]) == Some(new_id),
                forall|p: Point|
                    self.in_bounds(p) && (forall|k2: int|
                        0 <= k2 < k ==> (#[trigger] merged@[k2]) != p)
                        ==> #[trigger] self.id_at(p) == b0.id_at(p),
            decreases merged@.len() - k,
        {
            let p = merged[k];
            let i = self.point_to_index(&p);
            let ghost gprev = *self;
            self.grid.set(i, Some(new_id));
            proof {
                assert forall|p2: Point| self.in_bounds(p2) && p2 != p
                    implies self.id_at(p2) == gprev.id_at(p2) by {
                    if gprev.spec_idx(p2) == gprev.spec_idx(p) {
                        lemma_idx_injective(self.size as int, p, p2);
                    }
                    lemma_idx_bound(self.size as int, p2);
                }
                assert(self.id_at(merged@[k as int]) == Some(new_id));
                assert forall|k2: int| 0 <= k2 < k + 1
                    implies self.id_at(#[trigger] merged@[k2]) == Some(new_id) by {
                    if k2 < k {
                        assert(merged@[k2] != p);
                        assert(gprev.id_at(merged@[k2]) == Some(new_id));
                    }
                }
                assert forall|p2: Point|
                    self.in_bounds(p2) && (forall|k2: int|
                        0 <= k2 < k + 1 ==> (#[trigger] merged@[k2]) != p2)
                    implies #[trigger] self.id_at(p2) == b0.id_at(p2) by {
                    assert(merged@[k as int] != p2);
                    assert(gprev.id_at(p2) == b0.id_at(p2));
                }
            }
            k = k + 1;
        }

        let ghost m1b = *self;
        self.strings.push(Some(GoString::new(color, merged, Vec::new())));
        let ghost m2 = *self;
        proof {
            assert(m2.string_at(new_id as int).spec_stones() == merged_v);
            assert(m2.string_at(new_id as int).spec_color() == color);
            assert(m2.live(new_id as int));
            // The push left the grid alone, so the cell bookkeeping of the
            // write loop carries over.
            assert forall|p: Point| #[trigger] merged_v.contains(p)
                implies self.id_at(p) == Some(new_id) by {
                let k2 = choose|k2: int| 0 <= k2 < merged_v.len() && merged_v[k2] == p;
                assert(m1b.id_at(merged_v[k2]) == Some(new_id));
                assert(self.id_at(p) == m1b.id_at(p));
            }
            assert forall|p: Point| self.in_bounds(p) && !merged_v.contains(p)
                implies #[trigger] self.id_at(p) == b0.id_at(p) by {
                assert(forall|k2: int| 0 <= k2 < merged_v.len() ==> merged_v[k2] != p);
                assert(m1b.id_at(p) == b0.id_at(p));
                assert(self.id_at(p) == m1b.id_at(p));
            }
        }

        let mut j: usize = 0;
        while j < captured_ids.len()
            invariant
                0 <= j <= captured_ids@.len(),
                captured_ids@.no_duplicates(),
                b0.well_formed(),
                b0.wf_occ(),
                b0.in_bounds(point),
                b0.id_at(point) is None,
                forall|p: Point| #[trigger] merged_v.contains(p) <==> (p == point || exists|
                    j2: int,
                |
                    0 <= j2 < own_ids@.len() && b0.string_at(
                        own_ids@[j2] as int,
                    ).spec_stones().contains(p)),
                forall|j2: int| 0 <= j2 < captured_ids@.len()
                    ==> b0.live(#[trigger] captured_ids@[j2] as int)
                        && b0.string_at(captured_ids@[j2] as int).spec_color()
                        == color.opposite(),
                forall|j2: int| 0 <= j2 < own_ids@.len()
                    ==> b0.live(#[trigger] own_ids@[j2] as int)
                        && b0.string_at(own_ids@[j2] as int).spec_color() == color,
                new_id == b0.strings@.len(),
                self.size == b0.size,
                self.grid@.len() == b0.grid@.len(),
                self.strings@.len() == m2.strings@.len(),
                m2.strings@.len() == b0.strings@.len() + 1,
                forall|s: int|
                    0 <= s < self.strings@.len() && (forall|j2: int|
                        0 <= j2 < j ==> (#[trigger] captured_ids@[j2]) as int != s)
                        ==> #[trigger] self.strings@[s] == m2.strings@[s],
                forall|j2: int| 0 <= j2 < j
                    ==> self.strings@[#[trigger] captured_ids@[j2] as int] is None,
                forall|s: int|
                    0 <= s < b0.strings@.len() && (forall|j2: int|
                        0 <= j2 < own_ids@.len() ==> (#[trigger] own_ids@[j2]) as int != s)
                        ==> m2.strings@[s] == b0.strings@[s],
                forall|j2: int| 0 <= j2 < own_ids@.len()
                    ==> m2.strings@[#[trigger] own_ids@[j2] as int] is None,
                forall|k2: int| 0 <= k2 < merged_v.len()
                    ==> b0.in_bounds(#[trigger] merged_v[k2]),
                forall|p: Point| #[trigger] merged_v.contains(p)
                    ==> self.id_at(p) == Some(new_id),
                forall|p: Point|
                    self.in_bounds(p) && !merged_v.contains(p) && (forall|j2: int|
                        0 <= j2 < j ==> !b0.string_at(
                            (#[trigger] captured_ids@[j2]) as int,
                        ).spec_stones().contains(p)) ==> #[trigger] self.id_at(p) == b0.id_at(p),
                forall|p: Point|
                    (exists|j2: int|
                        0 <= j2 < j && b0.string_at(
                            (#[trigger] captured_ids@[j2]) as int,
                        ).spec_stones().contains(p)) ==> #[trigger] self.id_at(p) is None,
            decreases captured_ids@.len() - j,
        {
            let cid = captured_ids[j];
            proof {
                assert(b0.live(cid as int));
                assert(b0.wf_string_occ(cid as int));
                // This slot is neither the new one nor a merged-away own
                // slot, so it still holds the captured group.
                assert forall|j2: int| 0 <= j2 < own_ids@.len()
                    implies (#[trigger] own_ids@[j2]) as int != cid as int by {
                    assert(b0.string_at(own_ids@[j2] as int).spec_color() == color);
                }
                assert(m2.strings@[cid as int] == b0.strings@[cid as int]);
                assert forall|j2: int| 0 <= j2 < j
                    implies (#[trigger] captured_ids@[j2]) as int != cid as int by {
                    assert(captured_ids@[j2] != captured_ids@[j as int]);
                }
                assert(self.strings@[cid as int] == b0.strings@[cid as int]);
            }
            let stones_c: Vec<Point> = match &self.strings[cid] {
                Some(g) => copy_points(&g.stones),
                None => {
                    proof {
                        assert(false);
                    }
                    Vec::new()
                },
            };
            proof {
                assert(stones_c@ == b0.string_at(cid as int).spec_stones());
            }
            let ghost entry = *self;
            let mut k: usize = 0;
            while k < stones_c.len()
                invariant
                    0 <= k <= stones_c@.len(),
                    b0.wf_occ(),
                    stones_c@ == b0.string_at(cid as int).spec_stones(),
                    0 <= (cid as int) < b0.strings@.len(),
                    b0.live(cid as int),
                    self.size == b0.size,
                    self.grid@.len() == b0.grid@.len(),
                    self.strings@ == entry.strings@,
                    forall|k2: int| 0 <= k2 < k
                        ==> self.id_at(#[trigger] stones_c@[k2]) is None,
                    forall|p: Point|
                        self.in_bounds(p) && (forall|k2: int|
                            0 <= k2 < k ==> (#[trigger] stones_c@[k2]) != p)
                            ==> #[trigger] self.id_at(p) == entry.id_at(p),
                decreases stones_c@.len() - k,
            {
                let p = stones_c[k];
                proof {
                    assert(b0.in_bounds(b0.string_at(cid as int).spec_stones()[k as int]));
                }
                let i = self.point_to_index(&p);
                let ghost gprev = *self;
                self.grid.set(i, None);
                proof {
                    assert forall|p2: Point| self.in_bounds(p2) && p2 != p
                        implies self.id_at(p2) == gprev.id_at(p2) by {
                        if gprev.spec_idx(p2) == gprev.spec_idx(p) {
                            lemma_idx_injective(self.size as int, p, p2);
                        }
                        lemma_idx_bound(self.size as int, p2);
                    }
                    assert(self.id_at(stones_c@[k as int]) is None);
                    assert forall|k2: int| 0 <= k2 < k + 1
                        implies self.id_at(#[trigger] stones_c@[k2]) is None by {
                        if k2 < k {
                            if stones_c@[k2] != p {
                                assert(gprev.id_at(stones_c@[k2]) is None);
                            }
                        }
                    }
                    assert forall|p2: Point|
                        self.in_bounds(p2) && (forall|k2: int|
                            0 <= k2 < k + 1 ==> (#[trigger] stones_c@[k2]) != p2)
                        implies #[trigger] self.id_at(p2) == entry.id_at(p2) by {
                        assert(stones_c@[k as int] != p2);
                        assert(gprev.id_at(p2) == entry.id_at(p2));
                    }
                }
                k = k + 1;
            }
            let ghost cleared = *self;
            self.strings.set(cid, None);
            proof {
                assert(forall|p: Point| self.id_at(p) == cleared.id_at(p));
                // Cleared cells stay cleared, and this group's cells join them.
                assert forall|p: Point|
                    (exists|j2: int|
                        0 <= j2 < j + 1 && b0.string_at(
                            (#[trigger] captured_ids@[j2]) as int,
                        ).spec_stones().contains(p))
                    implies self.id_at(p) is None by {
                    let j2 = choose|j2: int|
                        0 <= j2 < j + 1 && b0.string_at(
                            (captured_ids@[j2]) as int,
                        ).spec_stones().contains(p);
                    if stones_c@.contains(p) {
                        let kk = choose|kk: int|
                            0 <= kk < stones_c@.len() && stones_c@[kk] == p;
                        assert(self.id_at(stones_c@[kk]) is None);
                    } else {
                        assert(j2 < j);
                        assert(b0.wf_string_occ((captured_ids@[j2]) as int));
                        assert(b0.in_bounds(p));
                        assert(forall|k2: int|
                            0 <= k2 < stones_c@.len() ==> stones_c@[k2] != p);
                        assert(cleared.in_bounds(p));
                        assert(cleared.id_at(p) == entry.id_at(p));
                        assert(self.id_at(p) == entry.id_at(p));
                        assert(entry.id_at(p) is None);
                    }
                }
                // Cells outside the merged group and the cleared groups
                // are untouched.
                assert forall|p: Point|
                    self.in_bounds(p) && !merged_v.contains(p) && (forall|j2: int|
                        0 <= j2 < j + 1 ==> !b0.string_at(
                            (#[trigger] captured_ids@[j2]) as int,
                        ).spec_stones().contains(p))
                    implies self.id_at(p) == b0.id_at(p) by {
                    assert(!b0.string_at((captured_ids@[j as int]) as int)
                        .spec_stones().contains(p));
                    assert(forall|k2: int| 0 <= k2 < stones_c@.len() ==> stones_c@[k2] != p);
                    assert(cleared.in_bounds(p));
                    assert(cleared.id_at(p) == entry.id_at(p));
                    assert(self.id_at(p) == entry.id_at(p));
                    assert(entry.id_at(p) == b0.id_at(p));
                }
                // Slot bookkeeping.
                assert forall|s: int|
                    0 <= s < self.strings@.len() && (forall|j2: int|
                        0 <= j2 < j + 1 ==> (#[trigger] captured_ids@[j2]) as int != s)
                    implies self.strings@[s] == m2.strings@[s] by {
                    assert((captured_ids@[j as int]) as int != s);
                }
                assert forall|j2: int| 0 <= j2 < j + 1
                    implies self.strings@[(#[trigger] captured_ids@[j2]) as int] is None by {
                    if j2 < j {
                        assert(captured_ids@[j2] != captured_ids@[j as int]);
                    }
                }
                // Re-establish the outer cell bookkeeping.
                assert forall|p: Point| #[trigger] merged_v.contains(p)
                    implies self.id_at(p) == Some(new_id) by {
                    if stones_c@.contains(p) {
                        let ii = choose|ii: int|
                            0 <= ii < stones_c@.len() && stones_c@[ii] == p;
                        assert(b0.id_at(p) == Some(cid));
                        if p == point {
                            assert(b0.id_at(point) is None);
                            assert(false);
                        } else {
                            let j2 = choose|j2: int|
                                0 <= j2 < own_ids@.len() && b0.string_at(
                                    own_ids@[j2] as int,
                                ).spec_stones().contains(p);
                            let m = choose|m: int|
                                0 <= m < b0.string_at(own_ids@[j2] as int).spec_stones().len()
                                    && b0.string_at(own_ids@[j2] as int).spec_stones()[m] == p;
                            assert(b0.wf_string_occ(own_ids@[j2] as int));
                            assert(b0.id_at(p) == Some(own_ids@[j2]));
                            assert(b0.string_at(own_ids@[j2] as int).spec_color() == color);
                            assert(b0.string_at(cid as int).spec_color() == color.opposite());
                            assert(false);
                        }
                    } else {
                        assert(forall|k2: int|
                            0 <= k2 < stones_c@.len() ==> stones_c@[k2] != p);
                        let ii2 = choose|ii2: int|
                            0 <= ii2 < merged_v.len() && merged_v[ii2] == p;
                        assert(b0.in_bounds(merged_v[ii2]));
                        assert(cleared.in_bounds(p));
                        assert(entry.id_at(p) == Some(new_id));
                        assert(cleared.id_at(p) == entry.id_at(p));
                    }
                }
            }
            j = j + 1;
        }

        let ghost m3 = *self;
        proof {
            // Own and captured slots never coincide: their colors differ.
            assert forall|j: int, j2: int|
                0 <= j < own_ids@.len() && 0 <= j2 < captured_ids@.len()
                implies (#[trigger] own_ids@[j]) as int != (#[trigger] captured_ids@[j2]) as int
                by {
                assert(b0.string_at(own_ids@[j] as int).spec_color() == color);
                assert(b0.string_at(captured_ids@[j2] as int).spec_color() == color.opposite());
            }
            // Captured slots predate the new slot.
            assert forall|j2: int| 0 <= j2 < captured_ids@.len()
                implies (#[trigger] captured_ids@[j2]) as int != new_id as int by {
                assert(b0.live(captured_ids@[j2] as int));
            }
            // Slot contents of the committed state, relative to the
            // pre-move board.
            assert forall|j: int| 0 <= j < own_ids@.len()
                implies m3.strings@[(#[trigger] own_ids@[j]) as int] is None by {
                assert forall|j2: int| 0 <= j2 < captured_ids@.len()
                    implies (#[trigger] captured_ids@[j2]) as int != own_ids@[j] as int by {}
                assert(m3.strings@[own_ids@[j] as int] == m2.strings@[own_ids@[j] as int]);
            }
            assert(m3.strings@[new_id as int] == m2.strings@[new_id as int]);
            assert forall|s: int|
                0 <= s < b0.strings@.len() && !own_ids@.contains(s as usize)
                    && !captured_ids@.contains(s as usize)
                implies m3.strings@[s] == b0.strings@[s] by {
                assert forall|j2: int| 0 <= j2 < captured_ids@.len()
                    implies (#[trigger] captured_ids@[j2]) as int != s by {
                    assert(captured_ids@.contains(captured_ids@[j2]));
                }
                assert(m3.strings@[s] == m2.strings@[s]);
                assert forall|j2: int| 0 <= j2 < own_ids@.len()
                    implies (#[trigger] own_ids@[j2]) as int != s by {
                    assert(own_ids@.contains(own_ids@[j2]));
                }
                assert(m2.strings@[s] == b0.strings@[s]);
            }
            // Every same-color group adjacent to the point was merged.
            assert forall|q: Point|
                adjacent(point, q) && #[trigger] b0.occupant(q) == Some(color)
                implies own_ids@.contains(b0.id_at(q)->0) by {
                assert(b0.in_bounds(q));
                assert(ns@.contains(q));
                let t2 = choose|t2: int| 0 <= t2 < ns@.len() && ns@[t2] == q;
                assert(b0.occupant(ns@[t2]) == Some(color));
            }
            assert(commit_description(b0, m3, color, point, merged_v, own_ids@, captured_ids@,
                new_id));
            lemma_commit_wf_occ(b0, m3, color, point, merged_v, own_ids@, captured_ids@,
                new_id);
        }
        self.recompute_all_liberties();
        proof {
            assert forall|q: Point|
                b0.in_bounds(q) && q != point implies self.occupant(q) == (
                if b0.occupant(q) == Some(color.opposite()) && b0.group_captured_by(q, point) {
                    None::<Color>
                } else {
                    b0.occupant(q)
                }) by {
                assert(self.occupant(q) == m3.occupant(q));
                lemma_commit_occupancy(b0, m3, color, point, merged_v, own_ids@, captured_ids@,
                    new_id, q);
            }
            assert(merged_v.contains(point));
            assert(m3.id_at(point) == Some(new_id));
            assert(m3.occupant(point) == Some(color));
            assert(self.occupant(point) == Some(color));
        }
        Ok(())
    }
}

/// The state of a board `m3` just after the occupancy part of committing a
/// legal play of `color` at `point` on the well-formed board `b0`: the
/// merged stone list occupies a fresh slot `new_id`, the merged-away own
/// slots and the captured slots are retired, the captured groups' cells are
/// cleared, and everything else is as it was.  Liberty lists are not yet
/// rebuilt.
spec fn commit_description(
    b0: Board,
    m3: Board,
    color: Color,
    point: Point,
    merged: Seq<Point>,
    own: Seq<usize>,
    captured: Seq<usize>,
    new_id: usize,
) -> bool {
    &&& b0.well_formed()
    &&& b0.in_bounds(point)
    &&& b0.id_at(point) is None
    &&& new_id == b0.strings@.len()
    &&& merged.no_duplicates()
    &&& merged.len() >= 1
    &&& forall|p: Point| #[trigger] merged.contains(p) <==> (p == point || exists|j: int|
        0 <= j < own.len() && b0.string_at(own[j] as int).spec_stones().contains(p))
    &&& forall|k: int| 0 <= k < merged.len() ==> b0.in_bounds(#[trigger] merged[k])
    &&& own.no_duplicates()
    &&& forall|j: int|
        0 <= j < own.len() ==> b0.live(#[trigger] own[j] as int)
            && b0.string_at(own[j] as int).spec_color() == color
    &&& forall|q: Point|
        adjacent(point, q) && #[trigger] b0.occupant(q) == Some(color) ==> own.contains(
            b0.id_at(q)->0,
        )
    &&& captured.no_duplicates()
    &&& forall|j: int|
        0 <= j < captured.len() ==> b0.live(#[trigger] captured[j] as int)
            && b0.string_at(captured[j] as int).spec_color() == color.opposite()
    &&& forall|q: Point|
        #[trigger] b0.occupant(q) == Some(color.opposite()) ==> (b0.group_captured_by(q, point)
            <==> captured.contains(b0.id_at(q)->0))
    &&& m3.size == b0.size
    &&& m3.grid@.len() == b0.grid@.len()
    &&& m3.strings@.len() == b0.strings@.len() + 1
    &&& m3.strings@[new_id as int] is Some
    &&& m3.string_at(new_id as int).spec_stones() == merged
    &&& m3.string_at(new_id as int).spec_color() == color
    &&& forall|j: int| 0 <= j < own.len() ==> m3.strings@[(#[trigger] own[j]) as int] is None
    &&& forall|j: int|
        0 <= j < captured.len() ==> m3.strings@[(#[trigger] captured[j]) as int] is None
    &&& forall|s: int|
        0 <= s < b0.strings@.len() && !own.contains(s as usize) && !captured.contains(s as usize)
            ==> m3.strings@[s] == b0.strings@[s]
    &&& forall|p: Point| #[trigger] merged.contains(p) ==> m3.id_at(p) == Some(new_id)
    &&& forall|p: Point|
        (exists|j: int|
            0 <= j < captured.len() && b0.string_at(
                (#[trigger] captured[j]) as int,
            ).spec_stones().contains(p)) ==> #[trigger] m3.id_at(p) is None
    &&& forall|p: Point|
        m3.in_bounds(p) && !merged.contains(p) && (forall|j: int|
            0 <= j < captured.len() ==> !b0.string_at(
                (#[trigger] captured[j]) as int,
            ).spec_stones().contains(p)) ==> #[trigger] m3.id_at(p) == b0.id_at(p)
}

/// After the occupancy part of a commit, occupancy bookkeeping is
/// consistent again.
proof fn lemma_commit_wf_occ(
    b0: Board,
    m3: Board,
    color: Color,
    point: Point,
    merged: Seq<Point>,
    own: Seq<usize>,
    captured: Seq<usize>,
    new_id: usize,
)
    requires
        commit_description(b0, m3, color, point, merged, own, captured, new_id),
    ensures
        m3.wf_occ(),
{
    // Merged stones other than the point come from a merged-away own slot.
    assert forall|p: Point| #[trigger] merged.contains(p) && p != point
        implies b0.id_at(p) is Some && own.contains(b0.id_at(p)->0) && b0.occupant(p)
            == Some(color) by {
        let j = choose|j: int|
            0 <= j < own.len() && b0.string_at(own[j] as int).spec_stones().contains(p);
        assert(b0.wf_string_occ(own[j] as int));
        let s = b0.string_at(own[j] as int).spec_stones();
        let m = choose|m: int| 0 <= m < s.len() && s[m] == p;
        assert(b0.id_at(p) == Some(own[j]));
        assert(own.contains(own[j]));
    }
    // A stone of a captured group sits on a cleared cell.
    assert forall|p: Point|
        b0.id_at(p) is Some && captured.contains(b0.id_at(p)->0)
        implies #[trigger] m3.id_at(p) is None by {
        let j = choose|j: int| 0 <= j < captured.len() && captured[j] == b0.id_at(p)->0;
        assert(b0.wf_string_occ(captured[j] as int));
        assert(b0.string_at(captured[j] as int).spec_stones().contains(p));
    }
    // Cells that kept their pre-move occupant point at surviving slots.
    assert forall|p: Point|
        m3.in_bounds(p) && !merged.contains(p) && (#[trigger] m3.id_at(p)) is Some
        implies m3.id_at(p) == b0.id_at(p) && b0.id_at(p) is Some && !own.contains(
            b0.id_at(p)->0,
        ) && !captured.contains(b0.id_at(p)->0) && m3.strings@[b0.id_at(p)->0 as int]
            == b0.strings@[b0.id_at(p)->0 as int] by {
        if forall|j: int|
            0 <= j < captured.len() ==> !b0.string_at(
                (#[trigger] captured[j]) as int,
            ).spec_stones().contains(p) {
            assert(m3.id_at(p) == b0.id_at(p));
            let d = b0.id_at(p)->0;
            assert(b0.live(d as int) && b0.string_at(d as int).spec_stones().contains(p));
            if own.contains(d) {
                let j = choose|j: int| 0 <= j < own.len() && own[j] == d;
                assert(b0.string_at(own[j] as int).spec_stones().contains(p));
                assert(merged.contains(p));
                assert(false);
            }
            if captured.contains(d) {
                let j = choose|j: int| 0 <= j < captured.len() && captured[j] == d;
                assert(b0.string_at((captured[j]) as int).spec_stones().contains(p));
                assert(false);
            }
            assert(0 <= d < b0.strings@.len());
        } else {
            let j = choose|j: int|
                0 <= j < captured.len() && b0.string_at(
                    (#[trigger] captured[j]) as int,
                ).spec_stones().contains(p);
            assert(m3.id_at(p) is None);
            assert(false);
        }
    }
    assert(m3.size * m3.size <= usize::MAX);
    assert(m3.grid@.len() == m3.size * m3.size);
    // The grid side: every occupied cell names a live slot listing it.
    assert forall|p: Point| m3.in_bounds(p) && (#[trigger] m3.id_at(p)) is Some implies {
        let id = m3.id_at(p)->0 as int;
        m3.live(id) && m3.string_at(id).spec_stones().contains(p)
    } by {
        if merged.contains(p) {
            assert(m3.id_at(p) == Some(new_id));
            assert(m3.live(new_id as int));
        } else {
            let d = b0.id_at(p)->0;
            assert(m3.strings@[d as int] == b0.strings@[d as int]);
            assert(b0.live(d as int));
            assert(m3.live(d as int));
            assert(m3.string_at(d as int).spec_stones().contains(p));
        }
    }
    // The slot side.
    assert forall|id: int| #[trigger] m3.live(id) implies m3.wf_string_occ(id) by {
        if id == new_id as int {
            let g = m3.string_at(id);
            assert(g.spec_stones() == merged);
            assert forall|k: int| 0 <= k < g.spec_stones().len() implies {
                let p = #[trigger] g.spec_stones()[k];
                m3.in_bounds(p) && m3.id_at(p) == Some(id as usize)
            } by {
                assert(merged.contains(merged[k]));
            }
            assert forall|k: int, q: Point|
                0 <= k < g.spec_stones().len() && #[trigger] adjacent(g.spec_stones()[k], q)
                    && m3.occupant(q) == Some(g.spec_color())
                implies m3.id_at(q) == Some(id as usize) by {
                let s = merged[k];
                assert(m3.id_at(q) is Some);
                if !merged.contains(q) {
                    assert(m3.id_at(q) == b0.id_at(q));
                    let d = b0.id_at(q)->0;
                    assert(m3.strings@[d as int] == b0.strings@[d as int]);
                    assert(b0.occupant(q) == Some(color));
                    if s == point {
                        assert(adjacent(point, q));
                        assert(own.contains(d));
                        assert(false);
                    } else {
                        assert(merged.contains(s));
                        let c = b0.id_at(s)->0;
                        assert(own.contains(c));
                        assert(b0.wf_string_occ(c as int));
                        let cs = b0.string_at(c as int).spec_stones();
                        assert(cs.contains(s));
                        let m = choose|m: int| 0 <= m < cs.len() && cs[m] == s;
                        assert(adjacent(cs[m], q));
                        assert(b0.occupant(q) == Some(b0.string_at(c as int).spec_color()));
                        assert(b0.id_at(q) == Some(c));
                        assert(own.contains(b0.id_at(q)->0));
                        assert(m3.strings@[(b0.id_at(q)->0) as int] is None);
                        assert(false);
                    }
                }
            }
        } else {
            assert(m3.strings@[id] is Some);
            assert(0 <= id < b0.strings@.len());
            if own.contains(id as usize) {
                let j = choose|j: int| 0 <= j < own.len() && own[j] == id as usize;
                assert(m3.strings@[(own[j]) as int] is None);
                assert(false);
            }
            if captured.contains(id as usize) {
                let j = choose|j: int| 0 <= j < captured.len() && captured[j] == id as usize;
                assert(m3.strings@[(captured[j]) as int] is None);
                assert(false);
            }
            assert(m3.strings@[id] == b0.strings@[id]);
            assert(b0.live(id));
            assert(b0.wf_string_occ(id));
            let g = m3.string_at(id);
            assert(g == b0.string_at(id));
            assert forall|k: int| 0 <= k < g.spec_stones().len() implies {
                let p = #[trigger] g.spec_stones()[k];
                m3.in_bounds(p) && m3.id_at(p) == Some(id as usize)
            } by {
                let p = g.spec_stones()[k];
                assert(b0.id_at(p) == Some(id as usize));
                if merged.contains(p) {
                    assert(p != point);
                    assert(own.contains(b0.id_at(p)->0));
                    let j = choose|j: int| 0 <= j < own.len() && own[j] == id as usize;
                    assert(false);
                }
                assert forall|j: int| 0 <= j < captured.len()
                    implies !b0.string_at(
                        (#[trigger] captured[j]) as int,
                    ).spec_stones().contains(p) by {
                    if b0.string_at((captured[j]) as int).spec_stones().contains(p) {
                        assert(b0.wf_string_occ((captured[j]) as int));
                        let cs = b0.string_at((captured[j]) as int).spec_stones();
                        let m = choose|m: int| 0 <= m < cs.len() && cs[m] == p;
                        assert(b0.id_at(p) == Some(captured[j]));
                        assert(captured.contains(id as usize));
                        assert(false);
                    }
                }
                assert(m3.id_at(p) == b0.id_at(p));
            }
            assert forall|k: int, q: Point|
                0 <= k < g.spec_stones().len() && #[trigger] adjacent(g.spec_stones()[k], q)
                    && m3.occupant(q) == Some(g.spec_color())
                implies m3.id_at(q) == Some(id as usize) by {
                let s = g.spec_stones()[k];
                assert(m3.id_at(q) is Some);
                if merged.contains(q) {
                    assert(m3.id_at(q) == Some(new_id));
                    assert(m3.occupant(q) == Some(color));
                    assert(g.spec_color() == color);
                    assert(b0.id_at(s) == Some(id as usize));
                    assert(b0.occupant(s) == Some(color));
                    if q == point {
                        assert(adjacent(point, s));
                        assert(own.contains(b0.id_at(s)->0));
                        let j = choose|j: int| 0 <= j < own.len() && own[j] == id as usize;
                        assert(m3.strings@[id] is None);
                        assert(false);
                    } else {
                        let c = b0.id_at(q)->0;
                        assert(own.contains(c));
                        assert(b0.wf_string_occ(c as int));
                        let cs = b0.string_at(c as int).spec_stones();
                        assert(cs.contains(q));
                        let m = choose|m: int| 0 <= m < cs.len() && cs[m] == q;
                        assert(adjacent(cs[m], s));
                        assert(b0.id_at(s) == Some(c));
                        assert(own.contains(id as usize));
                        let j = choose|j: int| 0 <= j < own.len() && own[j] == id as usize;
                        assert(m3.strings@[id] is None);
                        assert(false);
                    }
                } else {
                    let d = b0.id_at(q)->0;
                    assert(m3.id_at(q) == b0.id_at(q));
                    assert(m3.strings@[d as int] == b0.strings@[d as int]);
                    assert(b0.occupant(q) == Some(g.spec_color()));
                    assert(b0.id_at(q) == Some(id as usize));
                }
            }
        }
    }
}

/// After the occupancy part of a commit, every point other than the played
/// one keeps its occupant except the stones of captured groups, which are
/// cleared.
proof fn lemma_commit_occupancy(
    b0: Board,
    m3: Board,
    color: Color,
    point: Point,
    merged: Seq<Point>,
    own: Seq<usize>,
    captured: Seq<usize>,
    new_id: usize,
    q: Point,
)
    requires
        commit_description(b0, m3, color, point, merged, own, captured, new_id),
        b0.in_bounds(q),
        q != point,
    ensures
        m3.occupant(q) == (if b0.occupant(q) == Some(color.opposite()) && b0.group_captured_by(
            q,
            point,
        ) {
            None::<Color>
        } else {
            b0.occupant(q)
        }),
{
    if merged.contains(q) {
        let j = choose|j: int|
            0 <= j < own.len() && b0.string_at(own[j] as int).spec_stones().contains(q);
        assert(b0.wf_string_occ(own[j] as int));
        let s = b0.string_at(own[j] as int).spec_stones();
        let m = choose|m: int| 0 <= m < s.len() && s[m] == q;
        assert(b0.id_at(q) == Some(own[j]));
        assert(b0.occupant(q) == Some(color));
        assert(m3.id_at(q) == Some(new_id));
        assert(m3.occupant(q) == Some(color));
        assert(color.opposite() != color);
    } else if exists|j: int|
        0 <= j < captured.len() && b0.string_at(
            (#[trigger] captured[j]) as int,
        ).spec_stones().contains(q) {
        let j = choose|j: int|
            0 <= j < captured.len() && b0.string_at(
                (#[trigger] captured[j]) as int,
            ).spec_stones().contains(q);
        assert(b0.wf_string_occ((captured[j]) as int));
        let cs = b0.string_at((captured[j]) as int).spec_stones();
        let m = choose|m: int| 0 <= m < cs.len() && cs[m] == q;
        assert(b0.id_at(q) == Some(captured[j]));
        assert(b0.occupant(q) == Some(color.opposite()));
        assert(captured.contains(captured[j]));
        assert(b0.group_captured_by(q, point));
        assert(m3.id_at(q) is None);
    } else {
        assert(m3.id_at(q) == b0.id_at(q));
        match b0.id_at(q) {
            None => {
                assert(m3.occupant(q) is None && b0.occupant(q) is None);
            },
            Some(du) => {
                let d = du as int;
                assert(b0.live(d) && b0.string_at(d).spec_stones().contains(q));
                if own.contains(du) {
                    let j = choose|j: int| 0 <= j < own.len() && own[j] == du;
                    assert(b0.string_at(own[j] as int).spec_stones().contains(q));
                    assert(merged.contains(q));
                    assert(false);
                }
                if captured.contains(du) {
                    let j = choose|j: int| 0 <= j < captured.len() && captured[j] == du;
                    assert(b0.string_at((captured[j]) as int).spec_stones().contains(q));
                    assert(false);
                }
                assert(m3.strings@[d] == b0.strings@[d]);
                assert(m3.occupant(q) == b0.occupant(q));
                if b0.occupant(q) == Some(color.opposite()) && b0.group_captured_by(q, point) {
                    assert(captured.contains(b0.id_at(q)->0));
                    assert(false);
                }
            },
        }
    }
}

/// Occupancy well-formedness depends only on the grid, the board size, and
/// each live slot's stones and color — not on recorded liberties.
proof fn lemma_wf_occ_frame(b1: Board, b2: Board)
    requires
        b1.wf_occ(),
        b2.spec_size() == b1.spec_size(),
        b2.grid@ == b1.grid@,
        b2.strings@.len() == b1.strings@.len(),
        forall|s: int| b2.live(s) == b1.live(s),
        forall|s: int| #[trigger] b1.live(s)
            ==> b2.string_at(s).spec_stones() == b1.string_at(s).spec_stones()
                && b2.string_at(s).spec_color() == b1.string_at(s).spec_color(),
    ensures
        b2.wf_occ(),
{
    assert forall|p: Point| b1.id_at(p) == b2.id_at(p) by {}
    assert forall|q: Point| b1.occupant(q) == b2.occupant(q) by {
        if b1.id_at(q) is Some {
            assert(b1.in_bounds(q));
            assert(b1.live(b1.id_at(q)->0 as int));
        }
    }
    assert forall|p: Point| b2.in_bounds(p) && (#[trigger] b2.id_at(p)) is Some implies {
        let id = b2.id_at(p)->0 as int;
        b2.live(id) && b2.string_at(id).spec_stones().contains(p)
    } by {
        let id = b1.id_at(p)->0 as int;
        assert(b1.live(id) && b1.string_at(id).spec_stones().contains(p));
    }
    assert forall|id: int| #[trigger] b2.live(id) implies b2.wf_string_occ(id) by {
        assert(b1.live(id));
        assert(b1.wf_string_occ(id));
        let g1 = b1.string_at(id);
        let g2 = b2.string_at(id);
        assert(g2.spec_stones() == g1.spec_stones());
        assert(g2.spec_color() == g1.spec_color());
        assert forall|k: int| 0 <= k < g2.spec_stones().len() implies {
            let p = #[trigger] g2.spec_stones()[k];
            b2.in_bounds(p) && b2.id_at(p) == Some(id as usize)
        } by {
            assert(g1.spec_stones()[k] == g2.spec_stones()[k]);
            assert(b1.in_bounds(g1.spec_stones()[k]));
            assert(b1.id_at(g1.spec_stones()[k]) == Some(id as usize));
            assert(b1.id_at(g1.spec_stones()[k]) == b2.id_at(g2.spec_stones()[k]));
        }
        assert forall|k: int, q: Point|
            0 <= k < g2.spec_stones().len() && #[trigger] adjacent(g2.spec_stones()[k], q)
                && b2.occupant(q) == Some(g2.spec_color())
            implies b2.id_at(q) == Some(id as usize) by {
            assert(adjacent(g1.spec_stones()[k], q));
            assert(b1.occupant(q) == Some(g1.spec_color()));
        }
    }
}

/// Liberty well-formedness of one slot depends only on the grid, the board
/// size, and that slot's own value.
proof fn lemma_wf_libs_string_frame(b1: Board, b2: Board, s: int)
    requires
        b1.wf_libs_string(s),
        b2.spec_size() == b1.spec_size(),
        b2.grid@ == b1.grid@,
        b2.string_at(s) == b1.string_at(s),
    ensures
        b2.wf_libs_string(s),
{
    let g = b2.string_at(s);
    assert forall|p: Point| b1.id_at(p) == b2.id_at(p) by {}
    assert forall|k: int| 0 <= k < g.spec_liberties().len() implies {
        let p = #[trigger] g.spec_liberties()[k];
        b2.in_bounds(p) && b2.id_at(p) is None && adj_to_group(g, p)
    } by {
        assert(b1.in_bounds(g.spec_liberties()[k]));
        assert(b1.id_at(g.spec_liberties()[k]) is None);
    }
}

/// The character shown for a cell in the textual board snapshot.
pub open spec fn cell_char(o: Option<Color>) -> char {
    match o {
        None => '.',
        Some(c) => c.marker(),
    }
}

impl Board {
    /// The textual snapshot of the board: one character per point in
    /// row-major order, one row per line — `.` for an empty point and the
    /// color's marker for a stone.
    pub fn to_string(&self) -> (r: String)
        requires
            self.well_formed(),
        ensures
            r@.len() == self.spec_size() * (self.spec_size() + 1),
            forall|x: int, y: int|
                0 <= x < self.spec_size() && 0 <= y < self.spec_size()
                    ==> #[trigger] r@[x * (self.spec_size() + 1) + y] == cell_char(
                    self.occupant(Point(x as usize, y as usize)),
                ),
            forall|x: int|
                0 <= x < self.spec_size()
                    ==> #[trigger] r@[x * (self.spec_size() + 1) + self.spec_size()] == '\n',
    {
        let n = self.size;
        let ghost ni = n as int;
        let mut s = String::new();
        let mut x: usize = 0;
        while x < n
            invariant
                0 <= x <= n,
                n == self.size,
                ni == n as int,
                self.well_formed(),
                s@.len() == x * (ni + 1),
                forall|x2: int, y2: int|
                    0 <= x2 < x && 0 <= y2 < ni ==> #[trigger] s@[x2 * (ni + 1) + y2]
                        == cell_char(self.occupant(Point(x2 as usize, y2 as usize))),
                forall|x2: int| 0 <= x2 < x ==> #[trigger] s@[x2 * (ni + 1) + ni] == '\n',
            decreases n - x,
        {
            let mut y: usize = 0;
            while y < n
                invariant
                    0 <= y <= n,
                    0 <= x < n,
                    n == self.size,
                    ni == n as int,
                    self.well_formed(),
                    s@.len() == x * (ni + 1) + y,
                    forall|x2: int, y2: int|
                        0 <= x2 < x && 0 <= y2 < ni ==> #[trigger] s@[x2 * (ni + 1) + y2]
                            == cell_char(self.occupant(Point(x2 as usize, y2 as usize))),
                    forall|x2: int| 0 <= x2 < x ==> #[trigger] s@[x2 * (ni + 1) + ni] == '\n',
                    forall|y2: int|
                        0 <= y2 < y ==> #[trigger] s@[x * (ni + 1) + y2] == cell_char(
                            self.occupant(Point(x, y2 as usize)),
                        ),
                decreases n - y,
            {
                let ghost sv = s@;
                match self.occupant_at(Point(x, y)) {
                    None => s.append("."),
                    Some(c) => {
                        match c {
                            Color::Black => s.append("X"),
                            Color::White => s.append("O"),
                        }
                    },
                }
                proof {
                    reveal_strlit(".");
                    reveal_strlit("X");
                    reveal_strlit("O");
                    assert(s@.len() == sv.len() + 1);
                    assert(s@[sv.len() as int] == cell_char(self.occupant(Point(x, y))));
                    assert forall|i: int| 0 <= i < sv.len() implies s@[i] == sv[i] by {}
                    assert forall|x2: int, y2: int|
                        0 <= x2 < x && 0 <= y2 < ni
                        implies #[trigger] s@[x2 * (ni + 1) + y2] == cell_char(
                            self.occupant(Point(x2 as usize, y2 as usize)),
                        ) by {
                        lemma_render_idx(ni, x2, y2, x as int, y as int);
                    }
                    assert forall|x2: int| 0 <= x2 < x
                        implies #[trigger] s@[x2 * (ni + 1) + ni] == '\n' by {
                        lemma_render_idx(ni, x2, ni, x as int, y as int);
                    }
                    assert forall|y2: int| 0 <= y2 < y + 1
                        implies #[trigger] s@[x * (ni + 1) + y2] == cell_char(
                            self.occupant(Point(x, y2 as usize)),
                        ) by {
                        if y2 < y {
                            lemma_render_idx(ni, x as int, y2, x as int, y as int);
                        }
                    }
                }
                y = y + 1;
            }
            let ghost sv = s@;
            s.append("\n");
            proof {
                reveal_strlit("\n");
                assert(s@.len() == sv.len() + 1);
                assert(s@[sv.len() as int] == '\n');
                assert(s@.len() == (x + 1) * (ni + 1)) by (nonlinear_arith)
                    requires
                        s@.len() == x * (ni + 1) + ni + 1,
                ;
                assert forall|i: int| 0 <= i < sv.len() implies s@[i] == sv[i] by {}
                assert forall|x2: int, y2: int|
                    0 <= x2 < x + 1 && 0 <= y2 < ni
                    implies #[trigger] s@[x2 * (ni + 1) + y2] == cell_char(
                        self.occupant(Point(x2 as usize, y2 as usize)),
                    ) by {
                    lemma_render_idx(ni, x2, y2, x as int, ni);
                }
                assert forall|x2: int| 0 <= x2 < x + 1
                    implies #[trigger] s@[x2 * (ni + 1) + ni] == '\n' by {
                    if x2 < x {
                        lemma_render_idx(ni, x2, ni, x as int, ni);
                    }
                }
            }
            x = x + 1;
        }
        s
    }
}

/// Law: on a well-formed board every occupied point lies in the stone list
/// of the group stored at its cell, and every stone of that group maps
/// back to the same group — each occupied point belongs to exactly one
/// group.
pub proof fn lemma_membership_consistent(b: Board, p: Point)
    requires
        b.well_formed(),
        b.occupant(p) is Some,
    ensures
        b.group_at(p).spec_stones().contains(p),
        b.group_at(p).spec_stones().no_duplicates(),
        forall|k: int|
            0 <= k < b.group_at(p).spec_stones().len() ==> {
                let s = #[trigger] b.group_at(p).spec_stones()[k];
                b.in_bounds(s) && b.id_at(s) == b.id_at(p) && b.occupant(s) == b.occupant(p)
                    && b.group_at(s) == b.group_at(p)
            },
{
    let id = b.id_at(p)->0 as int;
    assert(b.live(id) && b.string_at(id).spec_stones().contains(p));
    assert(b.wf_string_occ(id));
}

/// Law: a group's recorded liberty list is duplicate-free and holds
/// exactly the empty in-bounds points adjacent to at least one of its
/// stones.
pub proof fn lemma_liberties_exact(b: Board, p: Point)
    requires
        b.well_formed(),
        b.occupant(p) is Some,
    ensures
        b.group_at(p).spec_liberties().no_duplicates(),
        forall|q: Point| #[trigger] b.group_at(p).spec_liberties().contains(q) <==> (b.in_bounds(
            q,
        ) && b.occupant(q) is None && adj_to_group(b.group_at(p), q)),
{
    let id = b.id_at(p)->0 as int;
    assert(b.live(id));
    assert(b.wf_libs_string(id));
    let g = b.group_at(p);
    assert forall|q: Point| #[trigger] g.spec_liberties().contains(q)
        implies (b.in_bounds(q) && b.occupant(q) is None && adj_to_group(g, q)) by {
        let k = choose|k: int| 0 <= k < g.spec_liberties().len() && g.spec_liberties()[k] == q;
    }
}

/// Law: a play on an empty point all of whose in-bounds neighbors are
/// occupied by the opponent, with no own-color neighbor, is suicide —
/// illegal — unless it captures one of those opposing groups.
pub proof fn lemma_surrounded_single_stone_suicide(b: Board, color: Color, p: Point)
    requires
        b.well_formed(),
        b.in_bounds(p),
        b.occupant(p) is None,
        forall|q: Point|
            adjacent(p, q) && b.in_bounds(q) ==> #[trigger] b.occupant(q) == Some(
                color.opposite(),
            ),
        forall|q: Point|
            adjacent(p, q) && b.in_bounds(q) ==> !(#[trigger] b.group_captured_by(q, p)),
    ensures
        !b.legal_play(color, p),
{
    if b.legal_play(color, p) {
        if exists|q: Point| adjacent(p, q) && b.in_bounds(q) && b.occupant(q) is None {
            let q = choose|q: Point| adjacent(p, q) && b.in_bounds(q) && b.occupant(q) is None;
            assert(b.occupant(q) == Some(color.opposite()));
            assert(false);
        } else if exists|q: Point|
            adjacent(p, q) && b.occupant(q) == Some(color) && exists|k: int|
                0 <= k < b.group_at(q).spec_liberties().len() && b.group_at(
                    q,
                ).spec_liberties()[k] != p {
            let q = choose|q: Point|
                adjacent(p, q) && b.occupant(q) == Some(color) && exists|k: int|
                    0 <= k < b.group_at(q).spec_liberties().len() && b.group_at(
                        q,
                    ).spec_liberties()[k] != p;
            assert(b.in_bounds(q));
            assert(b.occupant(q) == Some(color.opposite()));
            assert(false);
        } else {
            let q = choose|q: Point|
                adjacent(p, q) && b.occupant(q) == Some(color.opposite())
                    && b.group_captured_by(q, p);
            assert(b.in_bounds(q));
            assert(false);
        }
    }
}

/// Law: when a play at `p` captures the opposing group at `q`, every stone
/// of that group is removed by that same placement.  `b1` is the board
/// before the play and `b2` any board related to it as `place_stone`'s
/// success case promises.
pub proof fn lemma_capture_removes_whole_group(
    b1: Board,
    b2: Board,
    color: Color,
    p: Point,
    q: Point,
)
    requires
        b1.well_formed(),
        b1.in_bounds(p),
        b1.occupant(p) is None,
        forall|q2: Point|
            b1.in_bounds(q2) && q2 != p ==> #[trigger] b2.occupant(q2) == (if b1.occupant(q2)
                == Some(color.opposite()) && b1.group_captured_by(q2, p) {
                None::<Color>
            } else {
                b1.occupant(q2)
            }),
        b1.occupant(q) == Some(color.opposite()),
        b1.group_captured_by(q, p),
    ensures
        forall|k: int|
            0 <= k < b1.group_at(q).spec_stones().len() ==> b2.occupant(
                #[trigger] b1.group_at(q).spec_stones()[k],
            ) is None,
{
    lemma_membership_consistent(b1, q);
    assert forall|k: int| 0 <= k < b1.group_at(q).spec_stones().len()
        implies b2.occupant(#[trigger] b1.group_at(q).spec_stones()[k]) is None by {
        let s = b1.group_at(q).spec_stones()[k];
        assert(b1.occupant(s) == Some(color.opposite()));
        assert(b1.group_at(s) == b1.group_at(q));
        assert(b1.group_captured_by(s, p));
        assert(s != p);
    }
}

/// Law: on a well-formed board every empty in-bounds point adjacent to a
/// stone is recorded among the liberties of that stone's group — in
/// particular, a point freed by a capture at once becomes a liberty of
/// every surviving group that borders it.
pub proof fn lemma_empty_neighbor_is_liberty(b: Board, p: Point, q: Point)
    requires
        b.well_formed(),
        b.in_bounds(p),
        b.occupant(p) is None,
        adjacent(p, q),
        b.occupant(q) is Some,
    ensures
        b.group_at(q).spec_liberties().contains(p),
{
    lemma_adjacent_group_has_point_liberty(b, p, q);
}

/// Rows of the textual snapshot are laid out in order: an earlier cell
/// has a smaller index.
proof fn lemma_render_idx(n: int, x1: int, y1: int, x2: int, y2: int)
    requires
        0 <= x1,
        0 <= y1 <= n,
        0 <= x2,
        0 <= y2 <= n,
        x1 < x2 || (x1 == x2 && y1 < y2),
    ensures
        0 <= x1 * (n + 1) + y1 < x2 * (n + 1) + y2,
{
    assert(0 <= x1 * (n + 1) + y1 < x2 * (n + 1) + y2) by (nonlinear_arith)
        requires
            0 <= x1,
            0 <= y1 <= n,
            0 <= x2,
            0 <= y2 <= n,
            x1 < x2 || (x1 == x2 && y1 < y2),
    ;
}

/// A point's grid index lies below `n * n` when both coordinates lie
/// below `n`.
proof fn lemma_idx_bound(n: int, p: Point)
    requires
        p.0 < n,
        p.1 < n,
    ensures
        0 <= p.0 * n + p.1 < n * n,
{
    assert(0 <= p.0 * n + p.1 < n * n) by (nonlinear_arith)
        requires
            0 <= p.0 < n,
            0 <= p.1 < n,
    ;
}

/// Distinct in-bounds points have distinct grid indices.
proof fn lemma_idx_injective(n: int, p: Point, q: Point)
    requires
        p.0 < n,
        p.1 < n,
        q.0 < n,
        q.1 < n,
        p.0 * n + p.1 == q.0 * n + q.1,
    ensures
        p == q,
{
    assert(p.0 == q.0 && p.1 == q.1) by (nonlinear_arith)
        requires
            0 <= p.0 < n,
            0 <= p.1 < n,
            0 <= q.0 < n,
            0 <= q.1 < n,
            p.0 * n + p.1 == q.0 * n + q.1,
    ;
}

} // verus!
