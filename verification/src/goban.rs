use vstd::prelude::*;

use crate::errors::GobanError;
use crate::sgf::{GameNode, Prop};

verus! {

broadcast use vstd::seq_lib::group_seq_properties;

/// Colors of the two players' stones.
#[derive(Copy, Clone, Debug, PartialEq, Eq, Hash, Structural)]
pub enum StoneColor {
    Black,
    White,
}

impl StoneColor {
    /// The color of the opposing player.
    pub open spec fn spec_opposite(self) -> StoneColor {
        match self {
            StoneColor::Black => StoneColor::White,
            StoneColor::White => StoneColor::Black,
        }
    }

    pub fn opposite(self) -> (c: StoneColor)
        ensures
            c == self.spec_opposite(),
    {
        match self {
            StoneColor::Black => StoneColor::White,
            StoneColor::White => StoneColor::Black,
        }
    }
}

/// A stone of one color on one point.
#[derive(Copy, Clone, Debug, PartialEq, Eq, Hash, Structural)]
pub struct Stone {
    pub x: u8,
    pub y: u8,
    pub color: StoneColor,
}

impl Stone {
    pub fn new(x: u8, y: u8, color: StoneColor) -> (s: Stone)
        ensures
            s == (Stone { x, y, color }),
    {
        Stone { x, y, color }
    }
}

/// The mathematical content of a board state.
#[verifier::ext_equal]
pub ghost struct GobanView {
    /// Board size `(columns, rows)`.
    pub size: (u8, u8),
    /// At most one stone per point.
    pub stones: Map<(u8, u8), StoneColor>,
    /// The move counter.
    pub move_number: u64,
    /// Chronological `(move number, stone)` history.
    pub moves: Seq<(u64, Stone)>,
    /// Stones captured by black.
    pub black_captures: u64,
    /// Stones captured by white.
    pub white_captures: u64,
    /// Snapshots of the stone list taken just before each played move.
    pub before: Seq<(u64, Seq<Stone>)>,
    pub marks: Seq<(u8, u8)>,
    pub triangles: Seq<(u8, u8)>,
    pub circles: Seq<(u8, u8)>,
    pub squares: Seq<(u8, u8)>,
    pub selected: Seq<(u8, u8)>,
    pub dimmed: Seq<(u8, u8)>,
    pub lines: Seq<((u8, u8), (u8, u8))>,
    pub arrows: Seq<((u8, u8), (u8, u8))>,
    pub labels: Seq<((u8, u8), Seq<char>)>,
}

/// The simulated board state at one node of a game record.
pub struct Goban {
    size: (u8, u8),
    /// Row-major grid of points: index `y * size.0 + x`.
    grid: Vec<Option<StoneColor>>,
    move_number: u64,
    moves: Vec<(u64, Stone)>,
    black_captures: u64,
    white_captures: u64,
    before: Vec<(u64, Vec<Stone>)>,
    marks: Vec<(u8, u8)>,
    triangles: Vec<(u8, u8)>,
    circles: Vec<(u8, u8)>,
    squares: Vec<(u8, u8)>,
    selected: Vec<(u8, u8)>,
    dimmed: Vec<(u8, u8)>,
    lines: Vec<((u8, u8), (u8, u8))>,
    arrows: Vec<((u8, u8), (u8, u8))>,
    labels: Vec<((u8, u8), String)>,
}

/// Is `p` a point of a `w` by `h` board?
pub open spec fn in_bounds(p: (u8, u8), size: (u8, u8)) -> bool {
    p.0 < size.0 && p.1 < size.1
}

/// Grid index of point `p` on a board `w` columns wide.
pub open spec fn grid_index(p: (u8, u8), w: u8) -> int {
    p.1 * w + p.0
}

/// A point of a bounded board has a grid index inside the grid.
pub proof fn lemma_grid_index(p: (u8, u8), size: (u8, u8))
    requires
        in_bounds(p, size),
    ensures
        0 <= grid_index(p, size.0) < size.0 * size.1,
{
    assert(p.1 * size.0 + p.0 < size.0 * size.1) by (nonlinear_arith)
        requires
            p.0 < size.0,
            p.1 < size.1,
    ;
}

/// Distinct points of the board have distinct grid indices.
pub proof fn lemma_grid_index_injective(p: (u8, u8), q: (u8, u8), size: (u8, u8))
    requires
        in_bounds(p, size),
        in_bounds(q, size),
        p != q,
    ensures
        grid_index(p, size.0) != grid_index(q, size.0),
{
    assert(p.1 * size.0 + p.0 != q.1 * size.0 + q.0) by (nonlinear_arith)
        requires
            p.0 < size.0,
            q.0 < size.0,
            (p.0 != q.0 || p.1 != q.1),
    ;
}

/// A bounded board has a small grid.
pub proof fn lemma_grid_size(size: (u8, u8))
    requires
        size.0 <= 52,
        size.1 <= 52,
    ensures
        size.0 * size.1 <= 2704,
{
    assert(size.0 * size.1 <= 2704) by (nonlinear_arith)
        requires
            size.0 <= 52,
            size.1 <= 52,
    ;
}

/// The stone map a grid represents.
pub open spec fn grid_as_map(g: Seq<Option<StoneColor>>, size: (u8, u8)) -> Map<
    (u8, u8),
    StoneColor,
> {
    Map::new(
        |p: (u8, u8)| in_bounds(p, size) && g[grid_index(p, size.0)] is Some,
        |p: (u8, u8)| g[grid_index(p, size.0)]->Some_0,
    )
}

/// Orthogonal adjacency of two points.
pub open spec fn adjacent(p: (u8, u8), q: (u8, u8)) -> bool {
    ||| p.0 == q.0 && (p.1 + 1 == q.1 || q.1 + 1 == p.1)
    ||| p.1 == q.1 && (p.0 + 1 == q.0 || q.0 + 1 == p.0)
}

/// Does point `p` have an orthogonally-empty neighbor on the board?
pub open spec fn point_has_liberty(
    m: Map<(u8, u8), StoneColor>,
    size: (u8, u8),
    p: (u8, u8),
) -> bool {
    exists|q: (u8, u8)| #[trigger] adjacent(p, q) && in_bounds(q, size) && !m.contains_key(q)
}

/// A non-empty chain of same-colored stones, each adjacent to the one
/// before it.
pub open spec fn is_group_path(m: Map<(u8, u8), StoneColor>, path: Seq<(u8, u8)>) -> bool {
    &&& path.len() > 0
    &&& forall|i: int|
        0 <= i < path.len() ==> m.contains_key(#[trigger] path[i]) && m[path[i]] == m[path[0]]
    &&& forall|i: int| 1 <= i < path.len() ==> adjacent(path[i - 1], #[trigger] path[i])
}

/// Is `p` a stone of the maximal same-colored connected group containing `start`?
pub open spec fn in_group(m: Map<(u8, u8), StoneColor>, start: (u8, u8), p: (u8, u8)) -> bool {
    exists|path: Seq<(u8, u8)>|
        #[trigger] is_group_path(m, path) && path.first() == start && path.last() == p
}

/// The maximal same-colored connected group containing `start`.
pub open spec fn group_of(m: Map<(u8, u8), StoneColor>, start: (u8, u8)) -> Set<(u8, u8)> {
    Set::new(|p: (u8, u8)| in_group(m, start, p))
}

/// Does the group containing `start` have any liberty?
pub open spec fn group_has_liberty(
    m: Map<(u8, u8), StoneColor>,
    size: (u8, u8),
    start: (u8, u8),
) -> bool {
    exists|p: (u8, u8)| #[trigger] in_group(m, start, p) && point_has_liberty(m, size, p)
}

/// The stone map after the liberty check at `start`: the group containing
/// `start` is removed exactly when it exists and has no liberty.
pub open spec fn capture_map(
    m: Map<(u8, u8), StoneColor>,
    size: (u8, u8),
    start: (u8, u8),
) -> Map<(u8, u8), StoneColor> {
    if m.contains_key(start) && !group_has_liberty(m, size, start) {
        m.remove_keys(group_of(m, start))
    } else {
        m
    }
}

/// How many stones the liberty check at `start` removes.
pub open spec fn captured_count(
    m: Map<(u8, u8), StoneColor>,
    size: (u8, u8),
    start: (u8, u8),
) -> nat {
    if m.contains_key(start) && !group_has_liberty(m, size, start) {
        group_of(m, start).len()
    } else {
        0
    }
}

/// The in-bounds orthogonal neighbors of `p`, in the order the simulator
/// examines them.
pub open spec fn spec_neighbors(p: (u8, u8), size: (u8, u8)) -> Seq<(u8, u8)> {
    let s0 = Seq::<(u8, u8)>::empty();
    let s1 = if p.0 + 1 < size.0 {
        s0.push(((p.0 + 1) as u8, p.1))
    } else {
        s0
    };
    let s2 = if p.0 > 0 {
        s1.push(((p.0 - 1) as u8, p.1))
    } else {
        s1
    };
    let s3 = if p.1 + 1 < size.1 {
        s2.push((p.0, (p.1 + 1) as u8))
    } else {
        s2
    };
    if p.1 > 0 {
        s3.push((p.0, (p.1 - 1) as u8))
    } else {
        s3
    }
}

/// `spec_neighbors` lists exactly the in-bounds points adjacent to `p`,
/// without repetition.
pub proof fn lemma_neighbors(p: (u8, u8), size: (u8, u8))
    requires
        in_bounds(p, size),
    ensures
        forall|q: (u8, u8)|
            spec_neighbors(p, size).contains(q) <==> (#[trigger] adjacent(p, q) && in_bounds(
                q,
                size,
            )),
        spec_neighbors(p, size).no_duplicates(),
{
    let s = spec_neighbors(p, size);
    assert forall|q: (u8, u8)| s.contains(q) implies adjacent(p, q) && in_bounds(q, size) by {
        let i = choose|i: int| 0 <= i < s.len() && s[i] == q;
    }
    assert forall|q: (u8, u8)| adjacent(p, q) && in_bounds(q, size) implies s.contains(q) by {
        if q.0 == p.0 + 1 && q.1 == p.1 {
            assert(s[0] == q);
        } else if p.0 > 0 && q.0 == p.0 - 1 && q.1 == p.1 {
            let i = if p.0 + 1 < size.0 {
                1int
            } else {
                0int
            };
            assert(s[i] == q);
        } else if q.1 == p.1 + 1 && q.0 == p.0 {
            let i = (if p.0 + 1 < size.0 {
                1int
            } else {
                0int
            }) + (if p.0 > 0 {
                1int
            } else {
                0int
            });
            assert(s[i] == q);
        } else {
            let i = (if p.0 + 1 < size.0 {
                1int
            } else {
                0int
            }) + (if p.0 > 0 {
                1int
            } else {
                0int
            }) + (if p.1 + 1 < size.1 {
                1int
            } else {
                0int
            });
            assert(s[i] == q);
        }
    }
}

/// Linear scan: is `p` among the points of `v`?
fn contains_point(v: &Vec<(u8, u8)>, p: (u8, u8)) -> (r: bool)
    ensures
        r == v@.contains(p),
{
    let mut i: usize = 0;
    while i < v.len()
        invariant
            0 <= i <= v@.len(),
            forall|j: int| 0 <= j < i ==> v@[j] != p,
        decreases v@.len() - i,
    {
        let q = v[i];
        if q.0 == p.0 && q.1 == p.1 {
            proof {
                assert(v@[i as int] == p);
            }
            return true;
        }
        i = i + 1;
    }
    false
}

/// Distinct in-bounds points are no more numerous than the board's points.
pub proof fn lemma_distinct_points_bound(s: Seq<(u8, u8)>, size: (u8, u8))
    requires
        s.no_duplicates(),
        forall|i: int| 0 <= i < s.len() ==> in_bounds(#[trigger] s[i], size),
    ensures
        s.len() <= size.0 * size.1,
{
    s.unique_seq_to_set();
    let pts = s.to_set();
    let f = |p: (u8, u8)| grid_index(p, size.0);
    let idxs = pts.map(f);
    assert forall|p: (u8, u8), q: (u8, u8)|
        pts.contains(p) && pts.contains(q) && p != q implies f(p) != f(q) by {
        lemma_grid_index_injective(p, q, size);
    }
    assert(vstd::relations::injective_on(f, pts));
    vstd::set_lib::lemma_map_size(pts, idxs, f);
    assert forall|x: int| idxs.contains(x) implies vstd::set_lib::set_int_range(
        0,
        size.0 * size.1,
    ).contains(x) by {
        let p = choose|p: (u8, u8)| pts.contains(p) && f(p) == x;
        lemma_grid_index(p, size);
    }
    vstd::set_lib::lemma_int_range(0, size.0 * size.1);
    vstd::set_lib::lemma_len_subset(idxs, vstd::set_lib::set_int_range(0, size.0 * size.1));
}

/// Every point that `start`'s group reaches lies in any set that contains
/// `start` and is closed under same-colored adjacency.
pub proof fn lemma_path_in_closed_set(
    m: Map<(u8, u8), StoneColor>,
    path: Seq<(u8, u8)>,
    s: Set<(u8, u8)>,
)
    requires
        is_group_path(m, path),
        s.contains(path.first()),
        forall|g: (u8, u8), q: (u8, u8)|
            s.contains(g) && #[trigger] adjacent(g, q) && m.contains_key(q) && m[q]
                == m[path.first()] ==> s.contains(q),
    ensures
        s.contains(path.last()),
    decreases path.len(),
{
    if path.len() > 1 {
        let prefix = path.drop_last();
        assert(is_group_path(m, prefix)) by {
            assert(forall|i: int| 0 <= i < prefix.len() ==> prefix[i] == #[trigger] path[i]);
        }
        lemma_path_in_closed_set(m, prefix, s);
        assert(adjacent(path[path.len() - 2], path[path.len() - 1]));
        assert(s.contains(path.last()));
    }
}


/// Writing one grid cell changes the stone map at that one point.
pub proof fn lemma_grid_update(
    g: Seq<Option<StoneColor>>,
    size: (u8, u8),
    p: (u8, u8),
    v: Option<StoneColor>,
)
    requires
        g.len() == size.0 * size.1,
        in_bounds(p, size),
    ensures
        grid_as_map(g.update(grid_index(p, size.0), v), size) == (match v {
            Some(c) => grid_as_map(g, size).insert(p, c),
            None => grid_as_map(g, size).remove(p),
        }),
{
    let g2 = g.update(grid_index(p, size.0), v);
    lemma_grid_index(p, size);
    assert forall|q: (u8, u8)| in_bounds(q, size) implies g2[grid_index(q, size.0)] == (if q == p {
        v
    } else {
        g[grid_index(q, size.0)]
    }) by {
        lemma_grid_index(q, size);
        if q != p {
            lemma_grid_index_injective(p, q, size);
        }
    }
    match v {
        Some(c) => {
            assert(grid_as_map(g2, size) =~= grid_as_map(g, size).insert(p, c));
        },
        None => {
            assert(grid_as_map(g2, size) =~= grid_as_map(g, size).remove(p));
        },
    }
}

/// The grid index of a point recovers that point.
pub proof fn lemma_point_of_index(p: (u8, u8), size: (u8, u8))
    requires
        in_bounds(p, size),
    ensures
        grid_index(p, size.0) % (size.0 as int) == p.0,
        grid_index(p, size.0) / (size.0 as int) == p.1,
{
    vstd::arithmetic::div_mod::lemma_fundamental_div_mod_converse(
        grid_index(p, size.0),
        size.0 as int,
        p.1 as int,
        p.0 as int,
    );
}

/// The stones on the points with grid index below `n`, in row-major order.
pub open spec fn map_stones_up_to(
    m: Map<(u8, u8), StoneColor>,
    size: (u8, u8),
    n: int,
) -> Seq<Stone>
    decreases n,
{
    if n <= 0 || size.0 == 0 {
        Seq::empty()
    } else {
        let p = (((n - 1) % (size.0 as int)) as u8, ((n - 1) / (size.0 as int)) as u8);
        let prefix = map_stones_up_to(m, size, n - 1);
        if m.contains_key(p) {
            prefix.push(Stone { x: p.0, y: p.1, color: m[p] })
        } else {
            prefix
        }
    }
}

/// The stones of a board state, listed in row-major order.
pub open spec fn stones_list_of(v: GobanView) -> Seq<Stone> {
    map_stones_up_to(v.stones, v.size, v.size.0 * v.size.1)
}

impl View for Goban {
    type V = GobanView;

    closed spec fn view(&self) -> GobanView {
        GobanView {
            size: self.size,
            stones: grid_as_map(self.grid@, self.size),
            move_number: self.move_number,
            moves: self.moves@,
            black_captures: self.black_captures,
            white_captures: self.white_captures,
            before: self.before@.map_values(|e: (u64, Vec<Stone>)| (e.0, e.1@)),
            marks: self.marks@,
            triangles: self.triangles@,
            circles: self.circles@,
            squares: self.squares@,
            selected: self.selected@,
            dimmed: self.dimmed@,
            lines: self.lines@,
            arrows: self.arrows@,
            labels: self.labels@.map_values(|e: ((u8, u8), String)| (e.0, e.1@)),
        }
    }
}

impl Goban {
    /// The structural invariant: the grid covers exactly the board.
    pub closed spec fn wf(self) -> bool {
        &&& self.size.0 <= 52
        &&& self.size.1 <= 52
        &&& self.grid@.len() == self.size.0 * self.size.1
    }

    /// What well-formedness guarantees about the abstract state: the board
    /// is bounded and every stone lies on it.
    pub proof fn lemma_wf(self)
        requires
            self.wf(),
        ensures
            self@.size.0 <= 52,
            self@.size.1 <= 52,
            forall|p: (u8, u8)| #[trigger]
                self@.stones.contains_key(p) ==> in_bounds(p, self@.size),
    {
    }

    /// An empty board of the given size.
    pub fn new(board_size: (u8, u8)) -> (g: Goban)
        requires
            board_size.0 <= 52,
            board_size.1 <= 52,
        ensures
            g.wf(),
            g@.size == board_size,
            g@.stones == Map::<(u8, u8), StoneColor>::empty(),
            g@.move_number == 0,
            g@.moves == Seq::<(u64, Stone)>::empty(),
            g@.black_captures == 0,
            g@.white_captures == 0,
            g@.before == Seq::<(u64, Seq<Stone>)>::empty(),
            g@.marks == Seq::<(u8, u8)>::empty(),
            g@.triangles == Seq::<(u8, u8)>::empty(),
            g@.circles == Seq::<(u8, u8)>::empty(),
            g@.squares == Seq::<(u8, u8)>::empty(),
            g@.selected == Seq::<(u8, u8)>::empty(),
            g@.dimmed == Seq::<(u8, u8)>::empty(),
            g@.lines == Seq::<((u8, u8), (u8, u8))>::empty(),
            g@.arrows == Seq::<((u8, u8), (u8, u8))>::empty(),
            g@.labels == Seq::<((u8, u8), Seq<char>)>::empty(),
    {
        let w = board_size.0;
        let h = board_size.1;
        proof {
            lemma_grid_size(board_size);
        }
        let n: usize = (w as usize) * (h as usize);
        let mut grid: Vec<Option<StoneColor>> = Vec::new();
        let mut i: usize = 0;
        while i < n
            invariant
                i <= n,
                grid@.len() == i,
                forall|k: int| 0 <= k < i ==> grid@[k] is None,
            decreases n - i,
        {
            grid.push(None);
            i = i + 1;
        }
        let g = Goban {
            size: board_size,
            grid,
            move_number: 0,
            moves: Vec::new(),
            black_captures: 0,
            white_captures: 0,
            before: Vec::new(),
            marks: Vec::new(),
            triangles: Vec::new(),
            circles: Vec::new(),
            squares: Vec::new(),
            selected: Vec::new(),
            dimmed: Vec::new(),
            lines: Vec::new(),
            arrows: Vec::new(),
            labels: Vec::new(),
        };
        proof {
            assert forall|p: (u8, u8)| !(in_bounds(p, board_size) && g.grid@[grid_index(
                p,
                board_size.0,
            )] is Some) by {
                if in_bounds(p, board_size) {
                    lemma_grid_index(p, board_size);
                }
            }
            assert(g@.stones =~= Map::<(u8, u8), StoneColor>::empty());
        }
        g
    }

    /// The board size `(columns, rows)`.
    pub fn size(&self) -> (s: (u8, u8))
        ensures
            s == self@.size,
    {
        self.size
    }

    /// The in-bounds orthogonal neighbors of `p`.
    fn neighbors(&self, p: (u8, u8)) -> (r: Vec<(u8, u8)>)
        requires
            self.wf(),
            in_bounds(p, self@.size),
        ensures
            r@ == spec_neighbors(p, self@.size),
    {
        let (x, y) = p;
        let mut r: Vec<(u8, u8)> = Vec::new();
        if x + 1 < self.size.0 {
            r.push((x + 1, y));
        }
        if x > 0 {
            r.push((x - 1, y));
        }
        if y + 1 < self.size.1 {
            r.push((x, y + 1));
        }
        if y > 0 {
            r.push((x, y - 1));
        }
        proof {
            assert(r@ =~= spec_neighbors(p, self@.size));
        }
        r
    }

    /// Finds the captured group at `start`: the whole same-colored connected
    /// component if it has no liberty, and `None` otherwise (or when `start`
    /// is empty).
    #[verifier::loop_isolation(false)]
    fn find_captured_group(&self, start: (u8, u8)) -> (r: Option<Vec<(u8, u8)>>)
        requires
            self.wf(),
        ensures
            match r {
                Option::None => !self@.stones.contains_key(start) || group_has_liberty(
                    self@.stones,
                    self@.size,
                    start,
                ),
                Option::Some(g) => {
                    &&& self@.stones.contains_key(start)
                    &&& !group_has_liberty(self@.stones, self@.size, start)
                    &&& g@.no_duplicates()
                    &&& g@.to_set() == group_of(self@.stones, start)
                    &&& forall|i: int|
                        0 <= i < g@.len() ==> in_bounds(#[trigger] g@[i], self@.size)
                },
            },
    {
        let ghost m = self@.stones;
        let ghost size = self@.size;
        proof {
            assert(forall|q: (u8, u8)| #[trigger] m.contains_key(q) ==> in_bounds(q, size));
        }
        let color = match self.stone_color(start.0, start.1) {
            Some(c) => c,
            None => {
                return None;
            },
        };
        let mut group: Vec<(u8, u8)> = Vec::new();
        let mut to_process: Vec<(u8, u8)> = Vec::new();
        group.push(start);
        to_process.push(start);
        proof {
            assert(group@[0] == start);
            assert(to_process@[0] == start);
            let init_path = seq![start];
            assert(is_group_path(m, init_path));
            assert(init_path.first() == start && init_path.last() == start);
            assert(in_group(m, start, start));
            lemma_distinct_points_bound(group@, size);
        }
        while to_process.len() > 0
            invariant
                group@.no_duplicates(),
                to_process@.no_duplicates(),
                group@.contains(start),
                forall|i: int|
                    0 <= i < group@.len() ==> m.contains_key(#[trigger] group@[i]) && m[group@[i]]
                        == color && in_group(m, start, group@[i]),
                forall|i: int| 0 <= i < to_process@.len() ==> group@.contains(
                    #[trigger] to_process@[i],
                ),
                forall|g: (u8, u8), q: (u8, u8)|
                    group@.contains(g) && !to_process@.contains(g) && #[trigger] adjacent(g, q)
                        && in_bounds(q, size) ==> m.contains_key(q) && (m[q] == color
                        ==> group@.contains(q)),
                group@.len() <= size.0 * size.1,
            decreases size.0 * size.1 - group@.len(), to_process@.len(),
        {
            let ghost group_snap = group@;
            let ghost tp_snap = to_process@;
            let p = to_process.pop().unwrap();
            proof {
                assert(tp_snap.contains(p)) by {
                    assert(tp_snap[tp_snap.len() - 1] == p);
                }
                assert(group@.contains(p));
                assert(m.contains_key(p));
                assert forall|g: (u8, u8)|
                    !to_process@.contains(g) && g != p implies !tp_snap.contains(g) by {
                    if tp_snap.contains(g) {
                        let i = choose|i: int| 0 <= i < tp_snap.len() && tp_snap[i] == g;
                        assert(to_process@[i] == g);
                    }
                }
            }
            let nbrs = self.neighbors(p);
            proof {
                lemma_neighbors(p, size);
            }
            let mut k: usize = 0;
            while k < nbrs.len()
                invariant
                    0 <= k <= nbrs.len(),
                    group@.no_duplicates(),
                    to_process@.no_duplicates(),
                    group@.contains(start),
                    group@.contains(p),
                    forall|i: int|
                        0 <= i < group@.len() ==> m.contains_key(#[trigger] group@[i])
                            && m[group@[i]] == color && in_group(m, start, group@[i]),
                    forall|i: int| 0 <= i < to_process@.len() ==> group@.contains(
                        #[trigger] to_process@[i],
                    ),
                    !to_process@.contains(p),
                    forall|g: (u8, u8), q: (u8, u8)|
                        group@.contains(g) && !to_process@.contains(g) && g != p
                            && #[trigger] adjacent(g, q) && in_bounds(q, size) ==> m.contains_key(q)
                            && (m[q] == color ==> group@.contains(q)),
                    forall|j: int|
                        0 <= j < k ==> m.contains_key(#[trigger] nbrs@[j]) && (m[nbrs@[j]] == color
                            ==> group@.contains(nbrs@[j])),
                    group@.len() <= size.0 * size.1,
                    group_snap.len() <= group@.len(),
                    to_process@.len() + group_snap.len() + 1 == tp_snap.len() + group@.len(),
                decreases nbrs@.len() - k,
            {
                let q = nbrs[k];
                proof {
                    assert(nbrs@.contains(q));
                    assert(adjacent(p, q) && in_bounds(q, size));
                }
                if !contains_point(&group, q) {
                    match self.stone_color(q.0, q.1) {
                        None => {
                            proof {
                                assert(point_has_liberty(m, size, p));
                                assert(in_group(m, start, p));
                            }
                            return None;
                        },
                        Some(c) => {
                            if c == color {
                                proof {
                                    let path_p = choose|path: Seq<(u8, u8)>|
                                        #[trigger] is_group_path(m, path) && path.first() == start
                                            && path.last() == p;
                                    let path_q = path_p.push(q);
                                    assert(is_group_path(m, path_q)) by {
                                        assert(forall|i: int|
                                            0 <= i < path_p.len() ==> path_q[i] == #[trigger] path_p[i]);
                                        assert(path_q[path_q.len() - 1] == q);
                                        assert(path_q[0] == path_p[0]);
                                        assert(adjacent(path_q[path_q.len() - 2], q));
                                    }
                                    assert(path_q.first() == start && path_q.last() == q);
                                    assert(in_group(m, start, q));
                                }
                                group.push(q);
                                to_process.push(q);
                                proof {
                                    lemma_distinct_points_bound(group@, size);
                                }
                            }
                        },
                    }
                }
                k = k + 1;
            }
            proof {
                assert forall|g: (u8, u8), q: (u8, u8)|
                    group@.contains(g) && !to_process@.contains(g) && #[trigger] adjacent(g, q)
                        && in_bounds(q, size) implies m.contains_key(q) && (m[q] == color
                    ==> group@.contains(q)) by {
                    if g == p {
                        assert(nbrs@.contains(q));
                        let j = choose|j: int| 0 <= j < nbrs@.len() && nbrs@[j] == q;
                        assert(m.contains_key(nbrs@[j]));
                    }
                }
            }
        }
        // The worklist is empty: the group is closed and has no liberty.
        proof {
            let gset = group@.to_set();
            assert forall|pt: (u8, u8)| gset.contains(pt) implies in_group(m, start, pt)
                && in_bounds(pt, size) by {
                let i = choose|i: int| 0 <= i < group@.len() && group@[i] == pt;
                assert(m.contains_key(group@[i]));
            }
            assert forall|pt: (u8, u8)| #[trigger]
                in_group(m, start, pt) implies gset.contains(pt) by {
                let path = choose|path: Seq<(u8, u8)>|
                    #[trigger] is_group_path(m, path) && path.first() == start && path.last() == pt;
                assert forall|g: (u8, u8), q: (u8, u8)|
                    gset.contains(g) && #[trigger] adjacent(g, q) && m.contains_key(q) && m[q]
                        == m[start] implies gset.contains(q) by {
                    assert(group@.contains(g));
                    assert(in_bounds(q, size));
                }
                lemma_path_in_closed_set(m, path, gset);
            }
            assert forall|pt: (u8, u8)| #[trigger]
                in_group(m, start, pt) implies !point_has_liberty(m, size, pt) by {
                assert(gset.contains(pt));
                assert(group@.contains(pt));
                assert forall|q: (u8, u8)| #[trigger]
                    adjacent(pt, q) && in_bounds(q, size) implies m.contains_key(q) by {}
            }
            assert(!group_has_liberty(m, size, start));
            assert(gset =~= group_of(m, start));
            assert forall|i: int| 0 <= i < group@.len() implies in_bounds(
                #[trigger] group@[i],
                size,
            ) by {
                assert(m.contains_key(group@[i]));
            }
        }
        Some(group)
    }

    /// The stone on a point, if any.
    pub fn stone_color(&self, x: u8, y: u8) -> (c: Option<StoneColor>)
        requires
            self.wf(),
        ensures
            c == if self@.stones.contains_key((x, y)) {
                Some(self@.stones[(x, y)])
            } else {
                Option::<StoneColor>::None
            },
    {
        if x < self.size.0 && y < self.size.1 {
            proof {
                lemma_grid_index((x, y), self.size);
                lemma_grid_size(self.size);
            }
            let idx: usize = (y as usize) * (self.size.0 as usize) + (x as usize);
            self.grid[idx]
        } else {
            None
        }
    }

    /// Writes one board point.
    fn set_point(&mut self, p: (u8, u8), v: Option<StoneColor>)
        requires
            old(self).wf(),
            in_bounds(p, old(self)@.size),
        ensures
            final(self).wf(),
            final(self)@ == (GobanView {
                stones: match v {
                    Some(c) => old(self)@.stones.insert(p, c),
                    None => old(self)@.stones.remove(p),
                },
                ..old(self)@
            }),
    {
        proof {
            lemma_grid_index(p, self.size);
            lemma_grid_size(self.size);
            lemma_grid_update(self.grid@, self.size, p, v);
        }
        let idx: usize = (p.1 as usize) * (self.size.0 as usize) + (p.0 as usize);
        self.grid.set(idx, v);
    }

    /// Places a stone.  Succeeds exactly when the point lies on the board
    /// and is empty; rejected placements leave the board untouched.  No
    /// capture logic runs here.
    pub fn add_stone(&mut self, stone: Stone) -> (r: Result<(), GobanError>)
        requires
            old(self).wf(),
        ensures
            final(self).wf(),
            r is Ok <==> (in_bounds((stone.x, stone.y), old(self)@.size)
                && !old(self)@.stones.contains_key((stone.x, stone.y))),
            match r {
                Ok(_) => final(self)@ == (GobanView {
                    stones: old(self)@.stones.insert((stone.x, stone.y), stone.color),
                    ..old(self)@
                }),
                Err(e) => final(self)@ == old(self)@ && e == GobanError::InvalidMove,
            },
    {
        if stone.x >= self.size.0 || stone.y >= self.size.1 {
            return Err(GobanError::InvalidMove);
        }
        if self.stone_color(stone.x, stone.y).is_some() {
            return Err(GobanError::InvalidMove);
        }
        self.set_point((stone.x, stone.y), Some(stone.color));
        Ok(())
    }

    /// Removes whatever stone sits on a point, capture-free.
    pub fn clear_point(&mut self, point: (u8, u8))
        requires
            old(self).wf(),
        ensures
            final(self).wf(),
            final(self)@ == (GobanView { stones: old(self)@.stones.remove(point), ..old(self)@ }),
    {
        if point.0 < self.size.0 && point.1 < self.size.1 {
            self.set_point(point, None);
        } else {
            proof {
                assert(!self@.stones.contains_key(point));
                assert(self@.stones.remove(point) =~= self@.stones);
                assert(self@ =~= (GobanView {
                    stones: old(self)@.stones.remove(point),
                    ..old(self)@
                }));
            }
        }
    }

    /// Overrides the move counter.
    pub fn set_move_number(&mut self, num: u64)
        requires
            old(self).wf(),
        ensures
            final(self).wf(),
            final(self)@ == (GobanView { move_number: num, ..old(self)@ }),
    {
        self.move_number = num;
    }

    /// All stones on the board, in row-major order.
    pub fn stones(&self) -> (r: Vec<Stone>)
        requires
            self.wf(),
        ensures
            r@ == stones_list_of(self@),
    {
        let ghost m = self@.stones;
        let ghost size = self@.size;
        let w = self.size.0;
        let h = self.size.1;
        let mut r: Vec<Stone> = Vec::new();
        let mut y: u8 = 0;
        proof {
            lemma_grid_size(self.size);
        }
        while y < h
            invariant
                self.wf(),
                m == self@.stones,
                size == self@.size,
                w == size.0,
                h == size.1,
                0 <= y <= h,
                r@ == map_stones_up_to(m, size, y * w),
            decreases h - y,
        {
            let mut x: u8 = 0;
            while x < w
                invariant
                    self.wf(),
                    m == self@.stones,
                    size == self@.size,
                    w == size.0,
                    h == size.1,
                    0 <= y < h,
                    0 <= x <= w,
                    r@ == map_stones_up_to(m, size, y * w + x),
                decreases w - x,
            {
                proof {
                    lemma_grid_index((x, y), size);
                    lemma_point_of_index((x, y), size);
                }
                match self.stone_color(x, y) {
                    Some(c) => {
                        r.push(Stone { x, y, color: c });
                    },
                    None => {},
                }
                x = x + 1;
            }
            proof {
                assert(y * w + w == (y + 1) * w) by (nonlinear_arith);
            }
            y = y + 1;
        }
        proof {
            assert(h * w == w * h) by (nonlinear_arith);
        }
        r
    }
}

} // verus!


verus! {

/// `a + n`, stopped at the largest counter value.
pub open spec fn sat_add(a: u64, n: nat) -> u64 {
    if a + n > u64::MAX {
        u64::MAX
    } else {
        (a + n) as u64
    }
}

/// One liberty check at `start`, with any removed stones credited to
/// `capturer`.
pub open spec fn spec_capture_step(v: GobanView, start: (u8, u8), capturer: StoneColor) -> GobanView {
    let n = captured_count(v.stones, v.size, start);
    GobanView {
        stones: capture_map(v.stones, v.size, start),
        black_captures: if capturer is Black {
            sat_add(v.black_captures, n)
        } else {
            v.black_captures
        },
        white_captures: if capturer is White {
            sat_add(v.white_captures, n)
        } else {
            v.white_captures
        },
        ..v
    }
}

/// Liberty checks run on the first `k` listed neighbors, in order, on each
/// that currently holds an opposing stone.
pub open spec fn spec_neighbor_captures(
    v: GobanView,
    nbrs: Seq<(u8, u8)>,
    player: StoneColor,
    k: int,
) -> GobanView
    decreases k,
{
    if k <= 0 {
        v
    } else {
        let v1 = spec_neighbor_captures(v, nbrs, player, k - 1);
        let q = nbrs[k - 1];
        if v1.stones.contains_key(q) && v1.stones[q] == player.spec_opposite() {
            spec_capture_step(v1, q, player)
        } else {
            v1
        }
    }
}

/// The board state a successful `play_stone` produces: snapshot, placement,
/// neighbor captures, the suicide check, and the move record.
pub open spec fn spec_play_stone(v: GobanView, stone: Stone) -> GobanView {
    let p = (stone.x, stone.y);
    let v0 = GobanView { before: v.before.push((v.move_number, stones_list_of(v))), ..v };
    let v1 = GobanView { stones: v0.stones.insert(p, stone.color), ..v0 };
    let ns = spec_neighbors(p, v.size);
    let v2 = spec_neighbor_captures(v1, ns, stone.color, ns.len() as int);
    let v3 = spec_capture_step(v2, p, stone.color.spec_opposite());
    let mn = sat_add(v3.move_number, 1);
    GobanView { move_number: mn, moves: v3.moves.push((mn, stone)), ..v3 }
}

impl Goban {
    /// Runs the liberty check at `start_point` and removes the group there
    /// if it has no liberties; returns how many stones came off.
    pub fn process_captures(&mut self, start_point: (u8, u8)) -> (removed: usize)
        requires
            old(self).wf(),
        ensures
            final(self).wf(),
            final(self)@ == (GobanView {
                stones: capture_map(old(self)@.stones, old(self)@.size, start_point),
                ..old(self)@
            }),
            removed == captured_count(old(self)@.stones, old(self)@.size, start_point),
    {
        let ghost m = self@.stones;
        let ghost size = self@.size;
        match self.find_captured_group(start_point) {
            None => {
                proof {
                    assert(capture_map(m, size, start_point) == m);
                    assert(self@ =~= (GobanView { stones: capture_map(m, size, start_point), ..self@ }));
                }
                0
            },
            Some(group) => {
                let ghost gseq = group@;
                let mut i: usize = 0;
                while i < group.len()
                    invariant
                        self.wf(),
                        group@ == gseq,
                        0 <= i <= gseq.len(),
                        self@ == (GobanView {
                            stones: m.remove_keys(gseq.take(i as int).to_set()),
                            ..old(self)@
                        }),
                        self@.size == size,
                        forall|j: int| 0 <= j < gseq.len() ==> in_bounds(#[trigger] gseq[j], size),
                    decreases gseq.len() - i,
                {
                    let p = group[i];
                    proof {
                        assert(gseq.take(i as int + 1) =~= gseq.take(i as int).push(p));
                        assert(gseq.take(i as int + 1).to_set() =~= gseq.take(
                            i as int,
                        ).to_set().insert(p));
                        assert(m.remove_keys(gseq.take(i as int).to_set()).remove(p) =~= m.remove_keys(
                            gseq.take(i as int + 1).to_set(),
                        ));
                    }
                    self.set_point(p, None);
                    proof {
                        assert(self@ =~= (GobanView {
                            stones: m.remove_keys(gseq.take(i as int + 1).to_set()),
                            ..old(self)@
                        }));
                    }
                    i = i + 1;
                }
                proof {
                    assert(gseq.take(gseq.len() as int) =~= gseq);
                    assert(gseq.to_set() == group_of(m, start_point));
                    assert(self@ =~= (GobanView {
                        stones: capture_map(m, size, start_point),
                        ..old(self)@
                    }));
                    gseq.unique_seq_to_set();
                    assert(group_of(m, start_point).len() == gseq.len());
                }
                group.len()
            },
        }
    }

    /// Plays a stone: snapshots the board, places the stone, removes any
    /// neighboring opposing group left without liberties, applies the same
    /// rule to the played group, then records the move.  Fails with
    /// `InvalidMove` exactly when the point is off the board or occupied;
    /// the rejected state keeps only the snapshot.
    #[verifier::loop_isolation(false)]
    pub fn play_stone(&mut self, stone: Stone) -> (r: Result<(), GobanError>)
        requires
            old(self).wf(),
        ensures
            final(self).wf(),
            r is Ok <==> (in_bounds((stone.x, stone.y), old(self)@.size)
                && !old(self)@.stones.contains_key((stone.x, stone.y))),
            match r {
                Ok(_) => final(self)@ == spec_play_stone(old(self)@, stone),
                Err(e) => e == GobanError::InvalidMove && final(self)@ == (GobanView {
                    before: old(self)@.before.push(
                        (old(self)@.move_number, stones_list_of(old(self)@)),
                    ),
                    ..old(self)@
                }),
            },
    {
        let ghost v_in = self@;
        let snapshot = self.stones();
        let mn = self.move_number;
        self.before.push((mn, snapshot));
        proof {
            assert(self@ =~= (GobanView {
                before: v_in.before.push((v_in.move_number, stones_list_of(v_in))),
                ..v_in
            }));
        }
        match self.add_stone(stone) {
            Err(e) => {
                return Err(e);
            },
            Ok(_) => {},
        }
        let ghost v1 = self@;
        let p = (stone.x, stone.y);
        let opponent = stone.color.opposite();
        let nbrs = self.neighbors(p);
        proof {
            assert(nbrs@ == spec_neighbors(p, v_in.size));
            assert(self@ == spec_neighbor_captures(v1, nbrs@, stone.color, 0));
        }
        let mut k: usize = 0;
        while k < nbrs.len()
            invariant
                self.wf(),
                0 <= k <= nbrs@.len(),
                self@ == spec_neighbor_captures(v1, nbrs@, stone.color, k as int),
            decreases nbrs@.len() - k,
        {
            let q = nbrs[k];
            let ghost vk = self@;
            proof {
                assert((q.0, q.1) == q);
            }
            let take_it = match self.stone_color(q.0, q.1) {
                Some(c) => c == opponent,
                None => false,
            };
            proof {
                assert(take_it == (vk.stones.contains_key(q) && vk.stones[q]
                    == stone.color.spec_opposite()));
            }
            if take_it {
                let removed = self.process_captures(q);
                self.credit_captures(stone.color, removed);
                proof {
                    assert(self@ =~= spec_capture_step(vk, q, stone.color));
                }
            }
            proof {
                assert(self@ =~= spec_neighbor_captures(v1, nbrs@, stone.color, k + 1 as int));
            }
            k = k + 1;
        }
        let removed = self.process_captures(p);
        self.credit_captures(opponent, removed);
        let new_mn = if self.move_number < u64::MAX {
            self.move_number + 1
        } else {
            u64::MAX
        };
        self.move_number = new_mn;
        self.moves.push((new_mn, stone));
        proof {
            assert(self@ =~= spec_play_stone(v_in, stone));
        }
        Ok(())
    }

    /// Adds freshly captured stones to one side's tally.
    fn credit_captures(&mut self, capturer: StoneColor, n: usize)
        requires
            old(self).wf(),
        ensures
            final(self).wf(),
            final(self)@ == (GobanView {
                black_captures: if capturer is Black {
                    sat_add(old(self)@.black_captures, n as nat)
                } else {
                    old(self)@.black_captures
                },
                white_captures: if capturer is White {
                    sat_add(old(self)@.white_captures, n as nat)
                } else {
                    old(self)@.white_captures
                },
                ..old(self)@
            }),
    {
        match capturer {
            StoneColor::Black => {
                if self.black_captures <= u64::MAX - (n as u64) {
                    self.black_captures = self.black_captures + (n as u64);
                } else {
                    self.black_captures = u64::MAX;
                }
            },
            StoneColor::White => {
                if self.white_captures <= u64::MAX - (n as u64) {
                    self.white_captures = self.white_captures + (n as u64);
                } else {
                    self.white_captures = u64::MAX;
                }
            },
        }
    }
}

} // verus!

verus! {

/// The legacy pass sentinel: both coordinates 19 on a board smaller than
/// 20 by 20.
pub open spec fn spec_is_tt_pass(pt: (u8, u8), size: (u8, u8)) -> bool {
    pt.0 == 19 && pt.1 == 19 && size.0 < 20 && size.1 < 20
}

/// A board state with every markup category emptied.
pub open spec fn clear_markup(v: GobanView) -> GobanView {
    GobanView {
        marks: Seq::empty(),
        triangles: Seq::empty(),
        circles: Seq::empty(),
        squares: Seq::empty(),
        selected: Seq::empty(),
        dimmed: Seq::empty(),
        lines: Seq::empty(),
        arrows: Seq::empty(),
        labels: Seq::empty(),
        ..v
    }
}

/// The deep view of a label list.
pub open spec fn labels_view(s: Seq<((u8, u8), String)>) -> Seq<((u8, u8), Seq<char>)> {
    s.map_values(|e: ((u8, u8), String)| (e.0, e.1@))
}

/// What one played move does: the new state, or `InvalidMove` with only the
/// snapshot taken.
pub open spec fn spec_play_result(v: GobanView, stone: Stone) -> (GobanView, Option<GobanError>) {
    if in_bounds((stone.x, stone.y), v.size) && !v.stones.contains_key((stone.x, stone.y)) {
        (spec_play_stone(v, stone), None)
    } else {
        (
            GobanView { before: v.before.push((v.move_number, stones_list_of(v))), ..v },
            Some(GobanError::InvalidMove),
        )
    }
}

/// What one setup stone does: placed, or `InvalidMove` with the state kept.
pub open spec fn spec_add_result(v: GobanView, stone: Stone) -> (GobanView, Option<GobanError>) {
    if in_bounds((stone.x, stone.y), v.size) && !v.stones.contains_key((stone.x, stone.y)) {
        (
            GobanView { stones: v.stones.insert((stone.x, stone.y), stone.color), ..v },
            None,
        )
    } else {
        (v, Some(GobanError::InvalidMove))
    }
}

/// Setup stones added one by one, stopping at the first rejection.
pub open spec fn spec_add_stones(
    v: GobanView,
    pts: Seq<(u8, u8)>,
    color: StoneColor,
    k: int,
) -> (GobanView, Option<GobanError>)
    decreases k,
{
    if k <= 0 {
        (v, None)
    } else {
        let prev = spec_add_stones(v, pts, color, k - 1);
        if prev.1 is Some {
            prev
        } else {
            spec_add_result(prev.0, Stone { x: pts[k - 1].0, y: pts[k - 1].1, color })
        }
    }
}

/// Points erased one by one.
pub open spec fn spec_erase_points(v: GobanView, pts: Seq<(u8, u8)>, k: int) -> GobanView
    decreases k,
{
    if k <= 0 {
        v
    } else {
        let prev = spec_erase_points(v, pts, k - 1);
        GobanView { stones: prev.stones.remove(pts[k - 1]), ..prev }
    }
}

/// What one property does to the board state.
pub open spec fn spec_apply_prop(v: GobanView, prop: Prop) -> (GobanView, Option<GobanError>) {
    match prop {
        Prop::B(mv) => match mv {
            Some(pt) => if spec_is_tt_pass(pt, v.size) {
                (v, None)
            } else {
                spec_play_result(v, Stone { x: pt.0, y: pt.1, color: StoneColor::Black })
            },
            None => (v, None),
        },
        Prop::W(mv) => match mv {
            Some(pt) => if spec_is_tt_pass(pt, v.size) {
                (v, None)
            } else {
                spec_play_result(v, Stone { x: pt.0, y: pt.1, color: StoneColor::White })
            },
            None => (v, None),
        },
        Prop::AB(pts) => spec_add_stones(v, pts@, StoneColor::Black, pts@.len() as int),
        Prop::AW(pts) => spec_add_stones(v, pts@, StoneColor::White, pts@.len() as int),
        Prop::AE(pts) => (spec_erase_points(v, pts@, pts@.len() as int), None),
        Prop::MN(n) => (GobanView { move_number: n, ..v }, None),
        Prop::MA(pts) => (GobanView { marks: pts@, ..v }, None),
        Prop::TR(pts) => (GobanView { triangles: pts@, ..v }, None),
        Prop::CR(pts) => (GobanView { circles: pts@, ..v }, None),
        Prop::SQ(pts) => (GobanView { squares: pts@, ..v }, None),
        Prop::SL(pts) => (GobanView { selected: pts@, ..v }, None),
        Prop::DD(pts) => (GobanView { dimmed: pts@, ..v }, None),
        Prop::LB(ls) => (GobanView { labels: labels_view(ls@), ..v }, None),
        Prop::LN(ps) => (GobanView { lines: ps@, ..v }, None),
        Prop::AR(ps) => (GobanView { arrows: ps@, ..v }, None),
        Prop::SZ(_, _) => (v, None),
        Prop::SzInvalid => (v, None),
        Prop::Other => (v, None),
    }
}

/// The first `k` properties applied in order, stopping at the first error.
pub open spec fn spec_apply_props(
    v: GobanView,
    props: Seq<Prop>,
    k: int,
) -> (GobanView, Option<GobanError>)
    decreases k,
{
    if k <= 0 {
        (v, None)
    } else {
        let prev = spec_apply_props(v, props, k - 1);
        if prev.1 is Some {
            prev
        } else {
            spec_apply_prop(prev.0, props[k - 1])
        }
    }
}

/// What processing one node does: markup is cleared wholesale, then every
/// property is applied in order.
pub open spec fn spec_process_node(
    v: GobanView,
    props: Seq<Prop>,
) -> (GobanView, Option<GobanError>) {
    spec_apply_props(clear_markup(v), props, props.len() as int)
}

/// Once a property fails, later properties change nothing.
pub proof fn lemma_apply_props_error_stable(v: GobanView, props: Seq<Prop>, k1: int, k2: int)
    requires
        0 <= k1 <= k2,
        spec_apply_props(v, props, k1).1 is Some,
    ensures
        spec_apply_props(v, props, k2) == spec_apply_props(v, props, k1),
    decreases k2 - k1,
{
    if k2 > k1 {
        lemma_apply_props_error_stable(v, props, k1, k2 - 1);
    }
}

/// Once a setup stone fails, later setup stones change nothing.
pub proof fn lemma_add_stones_error_stable(
    v: GobanView,
    pts: Seq<(u8, u8)>,
    color: StoneColor,
    k1: int,
    k2: int,
)
    requires
        0 <= k1 <= k2,
        spec_add_stones(v, pts, color, k1).1 is Some,
    ensures
        spec_add_stones(v, pts, color, k2) == spec_add_stones(v, pts, color, k1),
    decreases k2 - k1,
{
    if k2 > k1 {
        lemma_add_stones_error_stable(v, pts, color, k1, k2 - 1);
    }
}

/// Copies a list of points.
fn copy_points(src: &Vec<(u8, u8)>) -> (r: Vec<(u8, u8)>)
    ensures
        r@ == src@,
{
    let mut r: Vec<(u8, u8)> = Vec::new();
    let mut i: usize = 0;
    while i < src.len()
        invariant
            0 <= i <= src@.len(),
            r@ == src@.take(i as int),
        decreases src@.len() - i,
    {
        r.push(src[i]);
        proof {
            assert(src@.take(i + 1 as int) =~= src@.take(i as int).push(src@[i as int]));
        }
        i = i + 1;
    }
    proof {
        assert(src@.take(src@.len() as int) =~= src@);
    }
    r
}

/// Copies a list of point pairs.
fn copy_pairs(src: &Vec<((u8, u8), (u8, u8))>) -> (r: Vec<((u8, u8), (u8, u8))>)
    ensures
        r@ == src@,
{
    let mut r: Vec<((u8, u8), (u8, u8))> = Vec::new();
    let mut i: usize = 0;
    while i < src.len()
        invariant
            0 <= i <= src@.len(),
            r@ == src@.take(i as int),
        decreases src@.len() - i,
    {
        r.push(src[i]);
        proof {
            assert(src@.take(i + 1 as int) =~= src@.take(i as int).push(src@[i as int]));
        }
        i = i + 1;
    }
    proof {
        assert(src@.take(src@.len() as int) =~= src@);
    }
    r
}

impl Goban {
    /// Is this point the legacy pass sentinel on this board?
    fn is_tt_pass(&self, pt: (u8, u8)) -> (r: bool)
        ensures
            r == spec_is_tt_pass(pt, self@.size),
    {
        pt.0 == 19 && pt.1 == 19 && self.size.0 < 20 && self.size.1 < 20
    }

    /// Applies one tree node to the board: all markup is replaced wholesale,
    /// then each property acts in order.  Processing stops at the first
    /// rejected placement, whose error is returned.
    #[verifier::loop_isolation(false)]
    pub fn process_node(&mut self, node: &GameNode) -> (r: Result<(), GobanError>)
        requires
            old(self).wf(),
        ensures
            final(self).wf(),
            final(self)@ == spec_process_node(old(self)@, node.properties@).0,
            match r {
                Ok(_) => spec_process_node(old(self)@, node.properties@).1 is None,
                Err(e) => spec_process_node(old(self)@, node.properties@).1 == Some(e),
            },
    {
        let ghost props = node.properties@;
        self.marks = Vec::new();
        self.triangles = Vec::new();
        self.circles = Vec::new();
        self.squares = Vec::new();
        self.selected = Vec::new();
        self.dimmed = Vec::new();
        self.lines = Vec::new();
        self.arrows = Vec::new();
        self.labels = Vec::new();
        let ghost vc = self@;
        proof {
            assert(vc =~= clear_markup(old(self)@));
        }
        let n = node.properties.len();
        let mut i: usize = 0;
        while i < n
            invariant
                self.wf(),
                0 <= i <= n,
                spec_apply_props(vc, props, i as int).1 is None,
                self@ == spec_apply_props(vc, props, i as int).0,
            decreases n - i,
        {
            let ghost vi = self@;
            match &node.properties[i] {
                Prop::B(mv) => match *mv {
                    Some(pt) => {
                        if !self.is_tt_pass(pt) {
                            let stone = Stone { x: pt.0, y: pt.1, color: StoneColor::Black };
                            match self.play_stone(stone) {
                                Ok(_) => {},
                                Err(e) => {
                                    proof {
                                        lemma_apply_props_error_stable(
                                            vc,
                                            props,
                                            i + 1 as int,
                                            props.len() as int,
                                        );
                                    }
                                    return Err(e);
                                },
                            }
                        }
                    },
                    None => {},
                },
                Prop::W(mv) => match *mv {
                    Some(pt) => {
                        if !self.is_tt_pass(pt) {
                            let stone = Stone { x: pt.0, y: pt.1, color: StoneColor::White };
                            match self.play_stone(stone) {
                                Ok(_) => {},
                                Err(e) => {
                                    proof {
                                        lemma_apply_props_error_stable(
                                            vc,
                                            props,
                                            i + 1 as int,
                                            props.len() as int,
                                        );
                                    }
                                    return Err(e);
                                },
                            }
                        }
                    },
                    None => {},
                },
                Prop::AB(pts) => {
                    match self.add_stones_list(pts, StoneColor::Black) {
                        Ok(_) => {},
                        Err(e) => {
                            proof {
                                lemma_apply_props_error_stable(
                                    vc,
                                    props,
                                    i + 1 as int,
                                    props.len() as int,
                                );
                            }
                            return Err(e);
                        },
                    }
                },
                Prop::AW(pts) => {
                    match self.add_stones_list(pts, StoneColor::White) {
                        Ok(_) => {},
                        Err(e) => {
                            proof {
                                lemma_apply_props_error_stable(
                                    vc,
                                    props,
                                    i + 1 as int,
                                    props.len() as int,
                                );
                            }
                            return Err(e);
                        },
                    }
                },
                Prop::AE(pts) => {
                    self.erase_points_list(pts);
                },
                Prop::MN(num) => {
                    self.set_move_number(*num);
                },
                Prop::MA(pts) => {
                    self.marks = copy_points(pts);
                },
                Prop::TR(pts) => {
                    self.triangles = copy_points(pts);
                },
                Prop::CR(pts) => {
                    self.circles = copy_points(pts);
                },
                Prop::SQ(pts) => {
                    self.squares = copy_points(pts);
                },
                Prop::SL(pts) => {
                    self.selected = copy_points(pts);
                },
                Prop::DD(pts) => {
                    self.dimmed = copy_points(pts);
                },
                Prop::LB(ls) => {
                    self.labels = copy_labels(ls);
                },
                Prop::LN(ps) => {
                    self.lines = copy_pairs(ps);
                },
                Prop::AR(ps) => {
                    self.arrows = copy_pairs(ps);
                },
                Prop::SZ(_, _) => {},
                Prop::SzInvalid => {},
                Prop::Other => {},
            }
            proof {
                assert(self@ =~= spec_apply_props(vc, props, i + 1 as int).0);
            }
            i = i + 1;
        }
        Ok(())
    }

    /// Adds a list of setup stones of one color, stopping at the first
    /// rejected point.
    #[verifier::loop_isolation(false)]
    fn add_stones_list(&mut self, pts: &Vec<(u8, u8)>, color: StoneColor) -> (r: Result<
        (),
        GobanError,
    >)
        requires
            old(self).wf(),
        ensures
            final(self).wf(),
            final(self)@ == spec_add_stones(old(self)@, pts@, color, pts@.len() as int).0,
            match r {
                Ok(_) => spec_add_stones(old(self)@, pts@, color, pts@.len() as int).1 is None,
                Err(e) => spec_add_stones(old(self)@, pts@, color, pts@.len() as int).1 == Some(e),
            },
    {
        let ghost v0 = self@;
        let mut j: usize = 0;
        let n = pts.len();
        while j < n
            invariant
                self.wf(),
                0 <= j <= n,
                spec_add_stones(v0, pts@, color, j as int).1 is None,
                self@ == spec_add_stones(v0, pts@, color, j as int).0,
            decreases n - j,
        {
            let pt = pts[j];
            match self.add_stone(Stone { x: pt.0, y: pt.1, color }) {
                Ok(_) => {},
                Err(e) => {
                    proof {
                        lemma_add_stones_error_stable(
                            v0,
                            pts@,
                            color,
                            j + 1 as int,
                            pts@.len() as int,
                        );
                    }
                    return Err(e);
                },
            }
            j = j + 1;
        }
        Ok(())
    }

    /// Erases a list of points, capture-free.
    #[verifier::loop_isolation(false)]
    fn erase_points_list(&mut self, pts: &Vec<(u8, u8)>)
        requires
            old(self).wf(),
        ensures
            final(self).wf(),
            final(self)@ == spec_erase_points(old(self)@, pts@, pts@.len() as int),
    {
        let ghost v0 = self@;
        let mut j: usize = 0;
        let n = pts.len();
        while j < n
            invariant
                self.wf(),
                0 <= j <= n,
                self@ == spec_erase_points(v0, pts@, j as int),
            decreases n - j,
        {
            let pt = pts[j];
            self.clear_point(pt);
            j = j + 1;
        }
    }
}

/// Does a property replace a markup category?
pub open spec fn is_markup_prop(p: Prop) -> bool {
    match p {
        Prop::MA(_) => true,
        Prop::TR(_) => true,
        Prop::CR(_) => true,
        Prop::SQ(_) => true,
        Prop::SL(_) => true,
        Prop::DD(_) => true,
        Prop::LB(_) => true,
        Prop::LN(_) => true,
        Prop::AR(_) => true,
        _ => false,
    }
}

/// Are all markup categories of a state empty?
pub open spec fn markup_is_empty(v: GobanView) -> bool {
    &&& v.marks.len() == 0
    &&& v.triangles.len() == 0
    &&& v.circles.len() == 0
    &&& v.squares.len() == 0
    &&& v.selected.len() == 0
    &&& v.dimmed.len() == 0
    &&& v.lines.len() == 0
    &&& v.arrows.len() == 0
    &&& v.labels.len() == 0
}

/// Does a property leave empty markup empty: it is either no markup
/// property at all, or one whose point list is empty?
pub open spec fn prop_markup_empty(p: Prop) -> bool {
    match p {
        Prop::MA(pts) => pts@.len() == 0,
        Prop::TR(pts) => pts@.len() == 0,
        Prop::CR(pts) => pts@.len() == 0,
        Prop::SQ(pts) => pts@.len() == 0,
        Prop::SL(pts) => pts@.len() == 0,
        Prop::DD(pts) => pts@.len() == 0,
        Prop::LB(ls) => ls@.len() == 0,
        Prop::LN(ps) => ps@.len() == 0,
        Prop::AR(ps) => ps@.len() == 0,
        _ => true,
    }
}

/// Markup isolation: a node whose markup properties are all absent or empty
/// leaves every one of the nine markup categories empty, whatever the
/// previous node had put there.
pub proof fn lemma_markup_isolation(v: GobanView, props: Seq<Prop>)
    requires
        forall|i: int| 0 <= i < props.len() ==> prop_markup_empty(#[trigger] props[i]),
    ensures
        markup_is_empty(spec_process_node(v, props).0),
{
    lemma_markup_empty_preserved(clear_markup(v), props, props.len() as int);
}

/// Applying properties that carry no markup keeps empty markup empty.
proof fn lemma_markup_empty_preserved(v: GobanView, props: Seq<Prop>, k: int)
    requires
        markup_is_empty(v),
        forall|i: int| 0 <= i < props.len() ==> prop_markup_empty(#[trigger] props[i]),
        k <= props.len(),
    ensures
        markup_is_empty(spec_apply_props(v, props, k).0),
    decreases k,
{
    if k > 0 {
        lemma_markup_empty_preserved(v, props, k - 1);
        let prev = spec_apply_props(v, props, k - 1);
        if prev.1 is None {
            lemma_apply_prop_markup(prev.0, props[k - 1]);
        }
    }
}

/// One property that carries no markup keeps empty markup empty.
proof fn lemma_apply_prop_markup(v: GobanView, p: Prop)
    requires
        markup_is_empty(v),
        prop_markup_empty(p),
    ensures
        markup_is_empty(spec_apply_prop(v, p).0),
{
    match p {
        Prop::B(mv) => {
            if mv is Some {
                let pt = mv->0;
                lemma_play_keeps_markup(v, Stone { x: pt.0, y: pt.1, color: StoneColor::Black });
            }
        },
        Prop::W(mv) => {
            if mv is Some {
                let pt = mv->0;
                lemma_play_keeps_markup(v, Stone { x: pt.0, y: pt.1, color: StoneColor::White });
            }
        },
        Prop::AB(pts) => {
            lemma_add_stones_keeps_markup(v, pts@, StoneColor::Black, pts@.len() as int);
        },
        Prop::AW(pts) => {
            lemma_add_stones_keeps_markup(v, pts@, StoneColor::White, pts@.len() as int);
        },
        Prop::AE(pts) => {
            lemma_erase_keeps_markup(v, pts@, pts@.len() as int);
        },
        _ => {},
    }
}

/// A played move never touches markup.
proof fn lemma_play_keeps_markup(v: GobanView, stone: Stone)
    ensures
        markup_is_empty(v) ==> markup_is_empty(spec_play_result(v, stone).0),
{
    let p = (stone.x, stone.y);
    if in_bounds(p, v.size) && !v.stones.contains_key(p) {
        let v0 = GobanView { before: v.before.push((v.move_number, stones_list_of(v))), ..v };
        let v1 = GobanView { stones: v0.stones.insert(p, stone.color), ..v0 };
        let ns = spec_neighbors(p, v.size);
        lemma_neighbor_captures_keep_markup(v1, ns, stone.color, ns.len() as int);
    }
}

/// Liberty checks never touch markup.
proof fn lemma_neighbor_captures_keep_markup(
    v: GobanView,
    nbrs: Seq<(u8, u8)>,
    player: StoneColor,
    k: int,
)
    ensures
        markup_is_empty(v) ==> markup_is_empty(spec_neighbor_captures(v, nbrs, player, k)),
    decreases k,
{
    if k > 0 {
        lemma_neighbor_captures_keep_markup(v, nbrs, player, k - 1);
    }
}

/// Setup stones never touch markup.
proof fn lemma_add_stones_keeps_markup(v: GobanView, pts: Seq<(u8, u8)>, color: StoneColor, k: int)
    requires
        markup_is_empty(v),
    ensures
        markup_is_empty(spec_add_stones(v, pts, color, k).0),
    decreases k,
{
    if k > 0 {
        lemma_add_stones_keeps_markup(v, pts, color, k - 1);
    }
}

/// Erasure never touches markup.
proof fn lemma_erase_keeps_markup(v: GobanView, pts: Seq<(u8, u8)>, k: int)
    requires
        markup_is_empty(v),
    ensures
        markup_is_empty(spec_erase_points(v, pts, k)),
    decreases k,
{
    if k > 0 {
        lemma_erase_keeps_markup(v, pts, k - 1);
    }
}

/// Setup placement never rejects a list of distinct, in-bounds, unoccupied
/// points: every stone of such a list is placed.
pub proof fn lemma_add_stones_never_rejected(
    v: GobanView,
    pts: Seq<(u8, u8)>,
    color: StoneColor,
    k: int,
)
    requires
        0 <= k <= pts.len(),
        pts.no_duplicates(),
        forall|i: int|
            0 <= i < pts.len() ==> in_bounds(#[trigger] pts[i], v.size) && !v.stones.contains_key(
                pts[i],
            ),
    ensures
        spec_add_stones(v, pts, color, k).1 is None,
        spec_add_stones(v, pts, color, k).0.stones.dom() =~= v.stones.dom().union(
            pts.take(k).to_set(),
        ),
        spec_add_stones(v, pts, color, k).0.size == v.size,
    decreases k,
{
    broadcast use vstd::set_lib::group_set_properties;

    if k > 0 {
        lemma_add_stones_never_rejected(v, pts, color, k - 1);
        let prev = spec_add_stones(v, pts, color, k - 1);
        let p = pts[k - 1];
        assert(!pts.take(k - 1).to_set().contains(p)) by {
            if pts.take(k - 1).to_set().contains(p) {
                let j = choose|j: int| 0 <= j < k - 1 && #[trigger] pts.take(k - 1)[j] == p;
                assert(pts[j] == pts[k - 1]);
            }
        }
        assert(!prev.0.stones.contains_key(p));
        assert(pts.take(k).to_set() =~= pts.take(k - 1).to_set().insert(p)) by {
            assert(pts.take(k) =~= pts.take(k - 1).push(p));
        }
    } else {
        assert(pts.take(0).to_set() =~= Set::<(u8, u8)>::empty());
    }
}

/// Determinism: a node's effect is a function of the starting state and the
/// property list alone, so identical replays agree on every component of the
/// resulting state.
pub proof fn lemma_replay_deterministic(v1: GobanView, v2: GobanView, props: Seq<Prop>)
    requires
        v1.size == v2.size,
        v1.stones == v2.stones,
        v1.move_number == v2.move_number,
        v1.moves == v2.moves,
        v1.black_captures == v2.black_captures,
        v1.white_captures == v2.white_captures,
        v1.before == v2.before,
        markup_is_empty(v1),
        markup_is_empty(v2),
    ensures
        spec_process_node(v1, props).1 == spec_process_node(v2, props).1,
        spec_process_node(v1, props).0.stones == spec_process_node(v2, props).0.stones,
        spec_process_node(v1, props).0.moves == spec_process_node(v2, props).0.moves,
        spec_process_node(v1, props).0.black_captures == spec_process_node(
            v2,
            props,
        ).0.black_captures,
        spec_process_node(v1, props).0.white_captures == spec_process_node(
            v2,
            props,
        ).0.white_captures,
{
    assert(clear_markup(v1) =~= clear_markup(v2)) by {
        assert(v1.marks =~= v2.marks);
        assert(v1.triangles =~= v2.triangles);
        assert(v1.circles =~= v2.circles);
        assert(v1.squares =~= v2.squares);
        assert(v1.selected =~= v2.selected);
        assert(v1.dimmed =~= v2.dimmed);
        assert(v1.lines =~= v2.lines);
        assert(v1.arrows =~= v2.arrows);
        assert(v1.labels =~= v2.labels);
    }
}

/// Copies a list of copyable values.
fn copy_vec<T: Copy>(src: &Vec<T>) -> (r: Vec<T>)
    ensures
        r@ == src@,
{
    let mut r: Vec<T> = Vec::new();
    let mut i: usize = 0;
    while i < src.len()
        invariant
            0 <= i <= src@.len(),
            r@ == src@.take(i as int),
        decreases src@.len() - i,
    {
        r.push(src[i]);
        proof {
            assert(src@.take(i + 1 as int) =~= src@.take(i as int).push(src@[i as int]));
        }
        i = i + 1;
    }
    proof {
        assert(src@.take(src@.len() as int) =~= src@);
    }
    r
}

/// The last snapshot recorded under a move number, if any.
pub open spec fn lookup_before(before: Seq<(u64, Seq<Stone>)>, n: u64) -> Option<Seq<Stone>>
    decreases before.len(),
{
    if before.len() == 0 {
        None
    } else if before.last().0 == n {
        Some(before.last().1)
    } else {
        lookup_before(before.drop_last(), n)
    }
}

/// The hoshi (star) points drawn on the common board sizes.
pub open spec fn spec_hoshi_points(size: (u8, u8)) -> Seq<(u8, u8)> {
    if size == (9u8, 9u8) {
        seq![(2u8, 2u8), (2u8, 6u8), (6u8, 2u8), (6u8, 6u8)]
    } else if size == (13u8, 13u8) {
        seq![(3u8, 3u8), (3u8, 9u8), (6u8, 6u8), (9u8, 3u8), (9u8, 9u8)]
    } else if size == (19u8, 19u8) {
        seq![
            (3u8, 3u8),
            (3u8, 9u8),
            (3u8, 15u8),
            (9u8, 3u8),
            (9u8, 9u8),
            (9u8, 15u8),
            (15u8, 3u8),
            (15u8, 9u8),
            (15u8, 15u8),
        ]
    } else {
        Seq::empty()
    }
}

impl Goban {
    /// Marked points of the most recent node.
    pub fn marks(&self) -> (r: Vec<(u8, u8)>)
        ensures
            r@ == self@.marks,
    {
        copy_vec(&self.marks)
    }

    /// Triangle markup of the most recent node.
    pub fn triangles(&self) -> (r: Vec<(u8, u8)>)
        ensures
            r@ == self@.triangles,
    {
        copy_vec(&self.triangles)
    }

    /// Circle markup of the most recent node.
    pub fn circles(&self) -> (r: Vec<(u8, u8)>)
        ensures
            r@ == self@.circles,
    {
        copy_vec(&self.circles)
    }

    /// Square markup of the most recent node.
    pub fn squares(&self) -> (r: Vec<(u8, u8)>)
        ensures
            r@ == self@.squares,
    {
        copy_vec(&self.squares)
    }

    /// Selected points of the most recent node.
    pub fn selected(&self) -> (r: Vec<(u8, u8)>)
        ensures
            r@ == self@.selected,
    {
        copy_vec(&self.selected)
    }

    /// Dimmed points of the most recent node.
    pub fn dimmed(&self) -> (r: Vec<(u8, u8)>)
        ensures
            r@ == self@.dimmed,
    {
        copy_vec(&self.dimmed)
    }

    /// Line markup of the most recent node.
    pub fn lines(&self) -> (r: Vec<((u8, u8), (u8, u8))>)
        ensures
            r@ == self@.lines,
    {
        copy_vec(&self.lines)
    }

    /// Arrow markup of the most recent node.
    pub fn arrows(&self) -> (r: Vec<((u8, u8), (u8, u8))>)
        ensures
            r@ == self@.arrows,
    {
        copy_vec(&self.arrows)
    }

    /// Label markup of the most recent node.
    pub fn labels(&self) -> (r: Vec<((u8, u8), String)>)
        ensures
            labels_view(r@) == self@.labels,
    {
        copy_labels(&self.labels)
    }

    /// The `(move number, stone)` history, in play order.
    pub fn moves(&self) -> (r: Vec<(u64, Stone)>)
        ensures
            r@ == self@.moves,
    {
        copy_vec(&self.moves)
    }

    /// How many stones the given side has captured.
    pub fn captures(&self, color: StoneColor) -> (r: u64)
        ensures
            r == match color {
                StoneColor::Black => self@.black_captures,
                StoneColor::White => self@.white_captures,
            },
    {
        match color {
            StoneColor::Black => self.black_captures,
            StoneColor::White => self.white_captures,
        }
    }

    /// The stone list as it stood just before the given move, or the current
    /// list when no snapshot was recorded under that number.
    pub fn stones_before_move(&self, move_number: u64) -> (r: Vec<Stone>)
        requires
            self.wf(),
        ensures
            r@ == match lookup_before(self@.before, move_number) {
                Some(snap) => snap,
                None => stones_list_of(self@),
            },
    {
        let ghost bview = self@.before;
        let mut i: usize = self.before.len();
        proof {
            assert(bview.take(i as int) =~= bview);
        }
        while i > 0
            invariant
                0 <= i <= self.before@.len(),
                bview == self@.before,
                lookup_before(bview, move_number) == lookup_before(
                    bview.take(i as int),
                    move_number,
                ),
            decreases i,
        {
            i = i - 1;
            proof {
                assert(bview.take(i + 1 as int).drop_last() =~= bview.take(i as int));
                assert(bview.take(i + 1 as int).last() == bview[i as int]);
            }
            if self.before[i].0 == move_number {
                let r = copy_vec(&self.before[i].1);
                proof {
                    assert(bview[i as int].1 == self.before@[i as int].1@);
                }
                return r;
            }
        }
        proof {
            assert(bview.take(0) =~= Seq::<(u64, Seq<Stone>)>::empty());
        }
        self.stones()
    }

    /// The hoshi points for this board size.
    pub fn hoshi_points(&self) -> (r: Vec<(u8, u8)>)
        ensures
            r@ == spec_hoshi_points(self@.size),
    {
        let mut r: Vec<(u8, u8)> = Vec::new();
        if self.size.0 == 9 && self.size.1 == 9 {
            r.push((2, 2));
            r.push((2, 6));
            r.push((6, 2));
            r.push((6, 6));
        } else if self.size.0 == 13 && self.size.1 == 13 {
            r.push((3, 3));
            r.push((3, 9));
            r.push((6, 6));
            r.push((9, 3));
            r.push((9, 9));
        } else if self.size.0 == 19 && self.size.1 == 19 {
            r.push((3, 3));
            r.push((3, 9));
            r.push((3, 15));
            r.push((9, 3));
            r.push((9, 9));
            r.push((9, 15));
            r.push((15, 3));
            r.push((15, 9));
            r.push((15, 15));
        }
        proof {
            assert(r@ =~= spec_hoshi_points(self@.size));
        }
        r
    }
}

/// Copies a label list.
fn copy_labels(src: &Vec<((u8, u8), String)>) -> (r: Vec<((u8, u8), String)>)
    ensures
        labels_view(r@) == labels_view(src@),
{
    let mut r: Vec<((u8, u8), String)> = Vec::new();
    let mut i: usize = 0;
    while i < src.len()
        invariant
            0 <= i <= src@.len(),
            r@.len() == i,
            forall|j: int|
                0 <= j < i ==> (#[trigger] r@[j]).0 == src@[j].0 && r@[j].1@ == src@[j].1@,
        decreases src@.len() - i,
    {
        let pt = src[i].0;
        let text = src[i].1.clone();
        r.push((pt, text));
        i = i + 1;
    }
    proof {
        assert forall|j: int| 0 <= j < src@.len() implies labels_view(r@)[j] == labels_view(
            src@,
        )[j] by {
            assert((r@[j].0, r@[j].1@) == (src@[j].0, src@[j].1@));
        }
        assert(labels_view(r@) =~= labels_view(src@));
    }
    r
}

} // verus!

verus! {

/// The empty board state of a given size.
pub open spec fn empty_goban_view(size: (u8, u8)) -> GobanView {
    GobanView {
        size,
        stones: Map::empty(),
        move_number: 0,
        moves: Seq::empty(),
        black_captures: 0,
        white_captures: 0,
        before: Seq::empty(),
        marks: Seq::empty(),
        triangles: Seq::empty(),
        circles: Seq::empty(),
        squares: Seq::empty(),
        selected: Seq::empty(),
        dimmed: Seq::empty(),
        lines: Seq::empty(),
        arrows: Seq::empty(),
        labels: Seq::empty(),
    }
}

/// The board size a node declares: the first size-shaped property decides;
/// without one the default is 19 by 19; a malformed or oversized
/// declaration is an error.
pub open spec fn spec_board_size(props: Seq<Prop>) -> Result<(u8, u8), GobanError>
    decreases props.len(),
{
    if props.len() == 0 {
        Ok((19u8, 19u8))
    } else {
        match props[0] {
            Prop::SZ(x, y) => if x <= 52 && y <= 52 {
                Ok((x, y))
            } else {
                Err(GobanError::InvalidSzProperty)
            },
            Prop::SzInvalid => Err(GobanError::InvalidSzProperty),
            _ => spec_board_size(props.skip(1)),
        }
    }
}

/// Reads the declared board size off a game's root node.
pub fn get_board_size(sgf_node: &GameNode) -> (r: Result<(u8, u8), GobanError>)
    ensures
        r == spec_board_size(sgf_node.properties@),
        r is Ok ==> r->Ok_0.0 <= 52 && r->Ok_0.1 <= 52,
{
    let props = &sgf_node.properties;
    let ghost pm = props@;
    let mut i: usize = 0;
    proof {
        assert(pm.skip(0) =~= pm);
    }
    while i < props.len()
        invariant
            0 <= i <= pm.len(),
            pm == props@,
            pm == sgf_node.properties@,
            spec_board_size(pm) == spec_board_size(pm.skip(i as int)),
        decreases pm.len() - i,
    {
        proof {
            assert(pm.skip(i as int)[0] == pm[i as int]);
            assert(pm.skip(i as int).skip(1) =~= pm.skip(i + 1 as int));
        }
        match &props[i] {
            Prop::SZ(x, y) => {
                if *x <= 52 && *y <= 52 {
                    return Ok((*x, *y));
                } else {
                    return Err(GobanError::InvalidSzProperty);
                }
            },
            Prop::SzInvalid => {
                return Err(GobanError::InvalidSzProperty);
            },
            _ => {},
        }
        i = i + 1;
    }
    proof {
        assert(pm.skip(pm.len() as int) =~= Seq::<Prop>::empty());
    }
    Ok((19, 19))
}

/// The first `k` nodes of a line replayed in order, stopping at the first
/// rejected placement.
pub open spec fn spec_replay(
    v: GobanView,
    nodes: Seq<crate::sgf_traversal::TravRec>,
    k: int,
) -> (GobanView, Option<GobanError>)
    decreases k,
{
    if k <= 0 {
        (v, None)
    } else {
        let prev = spec_replay(v, nodes, k - 1);
        if prev.1 is Some {
            prev
        } else {
            spec_process_node(prev.0, nodes[k - 1].node.properties@)
        }
    }
}

/// Once a node is rejected, later nodes change nothing.
pub proof fn lemma_replay_error_stable(
    v: GobanView,
    nodes: Seq<crate::sgf_traversal::TravRec>,
    k1: int,
    k2: int,
)
    requires
        0 <= k1 <= k2,
        spec_replay(v, nodes, k1).1 is Some,
    ensures
        spec_replay(v, nodes, k2) == spec_replay(v, nodes, k1),
    decreases k2 - k1,
{
    if k2 > k1 {
        lemma_replay_error_stable(v, nodes, k1, k2 - 1);
    }
}

/// How many nodes of the chosen line a description replays.
pub open spec fn spec_replay_len(nodes_len: int, node_number: crate::node_description::NodeNumber) -> int {
    match node_number {
        crate::node_description::NodeNumber::Last => nodes_len,
        crate::node_description::NodeNumber::Number(n) => if nodes_len <= n + 1 {
            nodes_len
        } else {
            n + 1
        },
    }
}

/// The whole reconstruction, from a parsed collection and a node
/// description to the board state at the target node.
pub open spec fn spec_from_collection(
    col: Seq<GameNode>,
    nd: crate::node_description::NodeDescription,
) -> Result<GobanView, GobanError> {
    if nd.game_number >= col.len() {
        Err(GobanError::MissingGame)
    } else {
        let root = col[nd.game_number as int];
        match spec_board_size(root.properties@) {
            Err(e) => Err(e),
            Ok(size) => {
                let full = crate::sgf_traversal::spec_traversal(root);
                let rc = crate::sgf_traversal::roots_cut(full, nd.variation as int);
                if !crate::sgf_traversal::variation_seen(rc, nd.variation as int) {
                    Err(GobanError::MissingVariation)
                } else {
                    let nodes = crate::sgf_traversal::spec_variation_nodes(
                        full,
                        nd.variation as int,
                    );
                    let upto = spec_replay_len(nodes.len() as int, nd.node_number);
                    let (v, err) = spec_replay(empty_goban_view(size), nodes, upto);
                    if err is Some {
                        Err(err->0)
                    } else if nd.node_number is Number && nd.node_number->0 >= nodes.len() {
                        Err(GobanError::InsufficientSgfNodes)
                    } else {
                        Ok(v)
                    }
                }
            },
        }
    }
}

impl Goban {
    /// Reconstructs the board state a node description points at inside a
    /// parsed game collection: the chosen game's declared board is replayed
    /// node by node along the chosen variation, up to the chosen node.
    #[verifier::loop_isolation(false)]
    pub fn from_collection(
        collection: &Vec<GameNode>,
        node_description: &crate::node_description::NodeDescription,
    ) -> (r: Result<Goban, GobanError>)
        requires
            forall|i: int|
                0 <= i < collection@.len() ==> (#[trigger] collection@[i]).count() <= u64::MAX,
        ensures
            match r {
                Ok(g) => g.wf() && spec_from_collection(collection@, *node_description) == Ok::<
                    GobanView,
                    GobanError,
                >(g@),
                Err(e) => spec_from_collection(collection@, *node_description) == Err::<
                    GobanView,
                    GobanError,
                >(e),
            },
    {
        let nd = *node_description;
        if nd.game_number >= collection.len() as u64 {
            return Err(GobanError::MissingGame);
        }
        let root = &collection[nd.game_number as usize];
        let board_size = match get_board_size(root) {
            Ok(s) => s,
            Err(e) => {
                return Err(e);
            },
        };
        let mut goban = Goban::new(board_size);
        proof {
            assert(goban@ =~= empty_goban_view(board_size));
        }
        let nodes = match crate::sgf_traversal::variation_nodes(root, nd.variation) {
            Ok(n) => n,
            Err(e) => {
                return Err(e);
            },
        };
        let ghost nodes_m = nodes@.map_values(
            |n: crate::sgf_traversal::SgfTraversalNode| crate::sgf_traversal::rec_of(n),
        );
        let ghost v0 = goban@;
        let ghost upto = spec_replay_len(nodes_m.len() as int, nd.node_number);
        let mut i: usize = 0;
        let mut done = false;
        while i < nodes.len() && !done
            invariant
                goban.wf(),
                0 <= i <= nodes_m.len(),
                spec_replay(v0, nodes_m, i as int).1 is None,
                goban@ == spec_replay(v0, nodes_m, i as int).0,
                done ==> nd.node_number is Number && i == nd.node_number->0 + 1 && i
                    <= nodes_m.len(),
                !done && nd.node_number is Number ==> i <= nd.node_number->0 + 1,
                !done && nd.node_number is Number && i == nd.node_number->0 + 1 ==> false,
            decreases nodes_m.len() - i, (if done {
                0int
            } else {
                1int
            }),
        {
            proof {
                assert(nodes_m[i as int].node == *nodes@[i as int].sgf_node);
            }
            match goban.process_node(nodes[i].sgf_node) {
                Ok(_) => {},
                Err(e) => {
                    proof {
                        assert(spec_replay(v0, nodes_m, i + 1 as int).1 == Some(e));
                        assert(i + 1 <= upto);
                        lemma_replay_error_stable(v0, nodes_m, i + 1 as int, upto);
                    }
                    return Err(e);
                },
            }
            i = i + 1;
            match nd.node_number {
                crate::node_description::NodeNumber::Number(n) => {
                    if (i as u64) > n {
                        done = true;
                    }
                },
                crate::node_description::NodeNumber::Last => {},
            }
        }
        proof {
            assert(i as int == upto);
        }
        match nd.node_number {
            crate::node_description::NodeNumber::Number(n) => {
                if n >= (i as u64) {
                    return Err(GobanError::InsufficientSgfNodes);
                }
            },
            crate::node_description::NodeNumber::Last => {},
        }
        Ok(goban)
    }
}

} // verus!

verus! {

/// Is `m1` contained in `m2`, point for point?
pub open spec fn submap_of(m1: Map<(u8, u8), StoneColor>, m2: Map<(u8, u8), StoneColor>) -> bool {
    forall|k: (u8, u8)| #[trigger]
        m1.contains_key(k) ==> m2.contains_key(k) && m1[k] == m2[k]
}

/// A chain read backwards is still a chain.
pub proof fn lemma_path_reverse(m: Map<(u8, u8), StoneColor>, path: Seq<(u8, u8)>)
    requires
        is_group_path(m, path),
    ensures
        is_group_path(m, path.reverse()),
        path.reverse().first() == path.last(),
        path.reverse().last() == path.first(),
{
    let r = path.reverse();
    assert forall|i: int| 0 <= i < r.len() implies m.contains_key(#[trigger] r[i]) && m[r[i]]
        == m[r[0]] by {
        assert(r[i] == path[path.len() - 1 - i]);
        assert(r[0] == path[path.len() - 1]);
    }
    assert forall|i: int| 1 <= i < r.len() implies adjacent(r[i - 1], #[trigger] r[i]) by {
        assert(r[i - 1] == path[path.len() - i]);
        assert(r[i] == path[path.len() - 1 - i]);
        assert(adjacent(path[path.len() - 1 - i], path[path.len() - i]));
    }
}

/// Two chains sharing an endpoint join into one chain.
pub proof fn lemma_path_concat(
    m: Map<(u8, u8), StoneColor>,
    p1: Seq<(u8, u8)>,
    p2: Seq<(u8, u8)>,
)
    requires
        is_group_path(m, p1),
        is_group_path(m, p2),
        p1.last() == p2.first(),
    ensures
        is_group_path(m, p1 + p2.skip(1)),
        (p1 + p2.skip(1)).first() == p1.first(),
        (p1 + p2.skip(1)).last() == p2.last() || p2.len() == 1,
{
    let j = p1 + p2.skip(1);
    assert(j[0] == p1[0]);
    assert forall|i: int| 0 <= i < j.len() implies m.contains_key(#[trigger] j[i]) && m[j[i]]
        == m[j[0]] by {
        if i < p1.len() {
            assert(j[i] == p1[i]);
        } else {
            assert(j[i] == p2[i - p1.len() + 1]);
            assert(m[p2[0]] == m[p1.last()]);
        }
    }
    assert forall|i: int| 1 <= i < j.len() implies adjacent(j[i - 1], #[trigger] j[i]) by {
        if i < p1.len() {
            assert(j[i] == p1[i] && j[i - 1] == p1[i - 1]);
        } else if i == p1.len() {
            assert(j[i - 1] == p1.last());
            assert(j[i] == p2[1]);
            assert(adjacent(p2[0], p2[1]));
        } else {
            assert(j[i] == p2[i - p1.len() + 1] && j[i - 1] == p2[i - p1.len()]);
            assert(adjacent(p2[i - p1.len()], p2[i - p1.len() + 1]));
        }
    }
    if p2.len() > 1 {
        assert(j.last() == p2.last());
    }
}

/// Group membership runs both ways.
pub proof fn lemma_in_group_symm(m: Map<(u8, u8), StoneColor>, a: (u8, u8), b: (u8, u8))
    requires
        in_group(m, a, b),
    ensures
        in_group(m, b, a),
{
    let path = choose|path: Seq<(u8, u8)>|
        #[trigger] is_group_path(m, path) && path.first() == a && path.last() == b;
    lemma_path_reverse(m, path);
    assert(is_group_path(m, path.reverse()));
}

/// Group membership chains together.
pub proof fn lemma_in_group_trans(
    m: Map<(u8, u8), StoneColor>,
    a: (u8, u8),
    b: (u8, u8),
    c: (u8, u8),
)
    requires
        in_group(m, a, b),
        in_group(m, b, c),
    ensures
        in_group(m, a, c),
{
    let p1 = choose|path: Seq<(u8, u8)>|
        #[trigger] is_group_path(m, path) && path.first() == a && path.last() == b;
    let p2 = choose|path: Seq<(u8, u8)>|
        #[trigger] is_group_path(m, path) && path.first() == b && path.last() == c;
    lemma_path_concat(m, p1, p2);
    if p2.len() == 1 {
        assert(b == c);
        assert(is_group_path(m, p1));
    } else {
        let j = p1 + p2.skip(1);
        assert(is_group_path(m, j) && j.first() == a && j.last() == c);
    }
}

/// A surviving stone's group keeps its liberty across one liberty check:
/// the check removes a whole group, which either was the surviving stone's
/// own (then it would not survive) or is disjoint from it.
pub proof fn lemma_capture_step_keeps_liberty(
    m: Map<(u8, u8), StoneColor>,
    size: (u8, u8),
    start: (u8, u8),
    x: (u8, u8),
)
    requires
        capture_map(m, size, start).contains_key(x),
        group_has_liberty(m, size, x),
    ensures
        group_has_liberty(capture_map(m, size, start), size, x),
{
    let w = capture_map(m, size, start);
    if m.contains_key(start) && !group_has_liberty(m, size, start) {
        let grp = group_of(m, start);
        let pt = choose|pt: (u8, u8)| #[trigger] in_group(m, x, pt) && point_has_liberty(
            m,
            size,
            pt,
        );
        let path = choose|path: Seq<(u8, u8)>|
            #[trigger] is_group_path(m, path) && path.first() == x && path.last() == pt;
        assert forall|i: int| 0 <= i < path.len() implies !grp.contains(#[trigger] path[i]) by {
            if grp.contains(path[i]) {
                let prefix = path.take(i + 1);
                assert(is_group_path(m, prefix)) by {
                    assert(forall|k: int| 0 <= k <= i ==> prefix[k] == #[trigger] path[k]);
                }
                assert(prefix.first() == x && prefix.last() == path[i]);
                assert(in_group(m, x, path[i]));
                lemma_in_group_symm(m, x, path[i]);
                lemma_in_group_trans(m, start, path[i], x);
                assert(grp.contains(x));
                assert(!w.contains_key(x));
            }
        }
        assert(is_group_path(w, path)) by {
            assert forall|i: int| 0 <= i < path.len() implies w.contains_key(#[trigger] path[i])
                && w[path[i]] == w[path[0]] by {
                assert(m.contains_key(path[i]) && m[path[i]] == m[path[0]]);
                assert(!grp.contains(path[i]));
            }
        }
        assert(in_group(w, x, pt));
        assert(point_has_liberty(w, size, pt)) by {
            let qe = choose|q: (u8, u8)| #[trigger] adjacent(pt, q) && in_bounds(q, size)
                && !m.contains_key(q);
            assert(!w.contains_key(qe));
            assert(adjacent(pt, qe));
        }
    } else {
        assert(w == m);
    }
}

} // verus!

verus! {

/// Along the neighbor liberty checks, the board only loses stones, and
/// every checked neighbor that still holds an opposing stone belongs to a
/// group with a liberty.
pub proof fn lemma_neighbor_captures_props(
    v: GobanView,
    nbrs: Seq<(u8, u8)>,
    player: StoneColor,
    k: int,
)
    requires
        k <= nbrs.len(),
    ensures
        ({
            let vk = spec_neighbor_captures(v, nbrs, player, k);
            &&& submap_of(vk.stones, v.stones)
            &&& vk.size == v.size
            &&& forall|j: int|
                0 <= j < k ==> ((vk.stones.contains_key(#[trigger] nbrs[j]) && vk.stones[nbrs[j]]
                    == player.spec_opposite()) ==> group_has_liberty(vk.stones, vk.size, nbrs[j]))
        }),
    decreases k,
{
    if k > 0 {
        lemma_neighbor_captures_props(v, nbrs, player, k - 1);
        let prev = spec_neighbor_captures(v, nbrs, player, k - 1);
        let vk = spec_neighbor_captures(v, nbrs, player, k);
        let q = nbrs[k - 1];
        let opponent = player.spec_opposite();
        if prev.stones.contains_key(q) && prev.stones[q] == opponent {
            assert(vk == spec_capture_step(prev, q, player));
            assert(submap_of(vk.stones, prev.stones)) by {
                assert forall|x: (u8, u8)| #[trigger]
                    vk.stones.contains_key(x) implies prev.stones.contains_key(x) && vk.stones[x]
                    == prev.stones[x] by {}
            }
            assert forall|j: int|
                0 <= j < k && vk.stones.contains_key(#[trigger] nbrs[j]) && vk.stones[nbrs[j]]
                    == opponent implies group_has_liberty(vk.stones, vk.size, nbrs[j]) by {
                let nj = nbrs[j];
                assert(prev.stones.contains_key(nj) && prev.stones[nj] == opponent);
                if j < k - 1 {
                    lemma_capture_step_keeps_liberty(prev.stones, prev.size, q, nj);
                } else {
                    // The check at `q` itself just ran: had its group lacked a
                    // liberty, `q` would be gone now.
                    assert(nj == q);
                    if !group_has_liberty(prev.stones, prev.size, q) {
                        assert(is_group_path(prev.stones, seq![q]));
                        assert(in_group(prev.stones, q, q));
                        assert(group_of(prev.stones, q).contains(q));
                        assert(!vk.stones.contains_key(q));
                    } else {
                        lemma_capture_step_keeps_liberty(prev.stones, prev.size, q, q);
                    }
                }
            }
        } else {
            assert(vk == prev);
        }
    }
}

/// No group is left without liberties by a played stone, unless it was just
/// removed: afterwards, if the played stone still stands, its group has a
/// liberty, and every orthogonally-adjacent opposing stone that still
/// stands belongs to a group with a liberty.
pub proof fn lemma_play_leaves_liberties(v: GobanView, stone: Stone)
    requires
        forall|p: (u8, u8)| #[trigger] v.stones.contains_key(p) ==> in_bounds(p, v.size),
        in_bounds((stone.x, stone.y), v.size),
        !v.stones.contains_key((stone.x, stone.y)),
    ensures
        ({
            let w = spec_play_stone(v, stone);
            let p = (stone.x, stone.y);
            &&& (w.stones.contains_key(p) ==> group_has_liberty(w.stones, w.size, p))
            &&& forall|q: (u8, u8)|
                #[trigger] adjacent(p, q) && w.stones.contains_key(q) && w.stones[q]
                    == stone.color.spec_opposite() ==> group_has_liberty(w.stones, w.size, q)
        }),
{
    let p = (stone.x, stone.y);
    let v0 = GobanView { before: v.before.push((v.move_number, stones_list_of(v))), ..v };
    let v1 = GobanView { stones: v0.stones.insert(p, stone.color), ..v0 };
    let ns = spec_neighbors(p, v.size);
    lemma_neighbors(p, v.size);
    lemma_neighbor_captures_props(v1, ns, stone.color, ns.len() as int);
    let v2 = spec_neighbor_captures(v1, ns, stone.color, ns.len() as int);
    let v3 = spec_capture_step(v2, p, stone.color.spec_opposite());
    let w = spec_play_stone(v, stone);
    assert(w.stones == v3.stones);
    assert(w.size == v.size);
    assert(v2.size == v.size);
    // The played stone's own check ran last, on the final stone map.
    if w.stones.contains_key(p) {
        assert(v2.stones.contains_key(p));
        if !group_has_liberty(v2.stones, v2.size, p) {
            assert(is_group_path(v2.stones, seq![p]));
            assert(in_group(v2.stones, p, p));
            assert(group_of(v2.stones, p).contains(p));
            assert(!w.stones.contains_key(p));
        }
        assert(w.stones == v2.stones);
        assert(group_has_liberty(w.stones, w.size, p));
    }
    // Every surviving adjacent opposing stone was checked in the neighbor
    // pass, and liberties outlast the later removals.
    assert forall|q: (u8, u8)|
        #[trigger] adjacent(p, q) && w.stones.contains_key(q) && w.stones[q]
            == stone.color.spec_opposite() implies group_has_liberty(w.stones, w.size, q) by {
        assert(submap_of(w.stones, v2.stones)) by {
            assert forall|x: (u8, u8)| #[trigger]
                w.stones.contains_key(x) implies v2.stones.contains_key(x) && w.stones[x]
                == v2.stones[x] by {}
        }
        assert(v2.stones.contains_key(q) && v2.stones[q] == stone.color.spec_opposite());
        assert(in_bounds(q, v.size)) by {
            assert(v1.stones.contains_key(q) && v1.stones[q] == v2.stones[q]);
            if q != p {
                assert(v.stones.contains_key(q));
            }
        }
        assert(ns.contains(q));
        let j = choose|j: int| 0 <= j < ns.len() && ns[j] == q;
        assert(group_has_liberty(v2.stones, v2.size, q));
        lemma_capture_step_keeps_liberty(v2.stones, v2.size, p, q);
    }
}

} // verus!
