use vstd::prelude::*;

use crate::errors::GobanError;
use crate::goban::{Goban, GobanView, Stone, stones_list_of};

verus! {

broadcast use vstd::seq_lib::group_seq_properties;

/// Which parts of the board a rendering shows, and what it draws there.
/// Only the markup switches matter to the range computation.
#[derive(Debug, Clone, Copy, PartialEq, Eq, Structural)]
pub struct MakeSvgOptions {
    pub draw_marks: bool,
    pub draw_triangles: bool,
    pub draw_circles: bool,
    pub draw_squares: bool,
    pub draw_selected: bool,
    pub draw_dimmed: bool,
    pub draw_labels: bool,
    pub draw_lines: bool,
    pub draw_arrows: bool,
}

/// The display sub-rectangle to draw: everything, an explicit rectangle, or
/// the tight box around the points of interest.
#[derive(Debug, Clone, Copy, PartialEq, Eq)]
pub enum GobanRange {
    ShrinkWrap,
    FullBoard,
    /// Half-open column and row ranges: `((x0, x1), (y0, y1))`.
    Ranged((u8, u8), (u8, u8)),
}

/// Both endpoints of every line or arrow.
pub open spec fn pair_points(s: Seq<((u8, u8), (u8, u8))>) -> Seq<(u8, u8)>
    decreases s.len(),
{
    if s.len() == 0 {
        Seq::empty()
    } else {
        pair_points(s.drop_last()).push(s.last().0).push(s.last().1)
    }
}

/// The points a shrink-wrapped display must cover: every stone, plus every
/// point of each markup category that the options draw.  Dimmed points are
/// deliberately left out.
pub open spec fn interest_points(v: GobanView, o: MakeSvgOptions) -> Seq<(u8, u8)> {
    stones_list_of(v).map_values(|st: Stone| (st.x, st.y)) + (if o.draw_marks {
        v.marks
    } else {
        Seq::empty()
    }) + (if o.draw_triangles {
        v.triangles
    } else {
        Seq::empty()
    }) + (if o.draw_circles {
        v.circles
    } else {
        Seq::empty()
    }) + (if o.draw_squares {
        v.squares
    } else {
        Seq::empty()
    }) + (if o.draw_selected {
        v.selected
    } else {
        Seq::empty()
    }) + (if o.draw_labels {
        v.labels.map_values(|e: ((u8, u8), Seq<char>)| e.0)
    } else {
        Seq::empty()
    }) + (if o.draw_lines {
        pair_points(v.lines)
    } else {
        Seq::empty()
    }) + (if o.draw_arrows {
        pair_points(v.arrows)
    } else {
        Seq::empty()
    })
}

/// The least value of a non-empty list.
pub open spec fn seq_min(s: Seq<int>) -> int
    decreases s.len(),
{
    if s.len() <= 1 {
        s[0]
    } else {
        let m = seq_min(s.drop_last());
        if s.last() < m {
            s.last()
        } else {
            m
        }
    }
}

/// The greatest value of a non-empty list.
pub open spec fn seq_max(s: Seq<int>) -> int
    decreases s.len(),
{
    if s.len() <= 1 {
        s[0]
    } else {
        let m = seq_max(s.drop_last());
        if s.last() > m {
            s.last()
        } else {
            m
        }
    }
}

/// The shrink-wrapped half-open range along one axis: one point of padding
/// around the points of interest, snapped to a board edge whenever padding
/// would leave a single-cell gap there.
pub open spec fn spec_axis_range(coords: Seq<int>, limit: int) -> (int, int) {
    if coords.len() == 0 {
        (0, limit)
    } else {
        let lo0 = if seq_min(coords) - 1 < 0 {
            0
        } else {
            seq_min(coords) - 1
        };
        let lo = if lo0 == 1 {
            0
        } else {
            lo0
        };
        let his = coords.map_values(|c: int| if c + 2 < limit { c + 2 } else { limit });
        let hi0 = seq_max(his);
        let hi = if hi0 == limit - 1 {
            limit
        } else {
            hi0
        };
        (lo, hi)
    }
}

/// The x coordinates of a point list.
pub open spec fn xs_of(s: Seq<(u8, u8)>) -> Seq<int> {
    s.map_values(|p: (u8, u8)| p.0 as int)
}

/// The y coordinates of a point list.
pub open spec fn ys_of(s: Seq<(u8, u8)>) -> Seq<int> {
    s.map_values(|p: (u8, u8)| p.1 as int)
}

/// The ranges a shrink-wrap display shows.
pub open spec fn spec_shrink_ranges(v: GobanView, o: MakeSvgOptions) -> ((int, int), (int, int)) {
    let pts = interest_points(v, o);
    (spec_axis_range(xs_of(pts), v.size.0 as int), spec_axis_range(ys_of(pts), v.size.1 as int))
}

/// A shrink-wrap of a board with no stones and no drawn markup falls back
/// to the whole board.
pub proof fn lemma_shrink_wrap_empty(v: GobanView, o: MakeSvgOptions)
    requires
        interest_points(v, o).len() == 0,
    ensures
        spec_shrink_ranges(v, o) == (((0int, v.size.0 as int), (0int, v.size.1 as int))),
{
    assert(xs_of(interest_points(v, o)).len() == 0);
    assert(ys_of(interest_points(v, o)).len() == 0);
}

/// Appends the points of one list.
fn append_points(dst: &mut Vec<(u8, u8)>, src: &Vec<(u8, u8)>)
    ensures
        final(dst)@ == old(dst)@ + src@,
{
    let mut i: usize = 0;
    proof {
        assert(dst@ + src@.take(0) =~= dst@);
    }
    while i < src.len()
        invariant
            0 <= i <= src@.len(),
            dst@ == old(dst)@ + src@.take(i as int),
        decreases src@.len() - i,
    {
        dst.push(src[i]);
        proof {
            assert(src@.take(i + 1 as int) =~= src@.take(i as int).push(src@[i as int]));
            assert(old(dst)@ + src@.take(i + 1 as int) =~= (old(dst)@ + src@.take(i as int)).push(
                src@[i as int],
            ));
        }
        i = i + 1;
    }
    proof {
        assert(src@.take(src@.len() as int) =~= src@);
    }
}

/// Appends both endpoints of every pair.
fn append_pair_points(dst: &mut Vec<(u8, u8)>, src: &Vec<((u8, u8), (u8, u8))>)
    ensures
        final(dst)@ == old(dst)@ + pair_points(src@),
{
    let mut i: usize = 0;
    proof {
        assert(pair_points(src@.take(0)) =~= Seq::<(u8, u8)>::empty());
        assert(dst@ + pair_points(src@.take(0)) =~= dst@);
    }
    while i < src.len()
        invariant
            0 <= i <= src@.len(),
            dst@ == old(dst)@ + pair_points(src@.take(i as int)),
        decreases src@.len() - i,
    {
        let pair = src[i];
        dst.push(pair.0);
        dst.push(pair.1);
        proof {
            assert(src@.take(i + 1 as int).drop_last() =~= src@.take(i as int));
            assert(src@.take(i + 1 as int).last() == src@[i as int]);
            assert(dst@ =~= old(dst)@ + pair_points(src@.take(i + 1 as int)));
        }
        i = i + 1;
    }
    proof {
        assert(src@.take(src@.len() as int) =~= src@);
    }
}

/// The least x and y of a non-empty point list.
fn min_coords(pts: &Vec<(u8, u8)>) -> (r: (u8, u8))
    requires
        pts@.len() > 0,
    ensures
        r.0 as int == seq_min(xs_of(pts@)),
        r.1 as int == seq_min(ys_of(pts@)),
{
    let mut mx = pts[0].0;
    let mut my = pts[0].1;
    let mut i: usize = 1;
    proof {
        assert(xs_of(pts@.take(1))[0] == pts@[0].0 as int);
        assert(xs_of(pts@.take(1)).len() == 1);
        assert(ys_of(pts@.take(1))[0] == pts@[0].1 as int);
    }
    while i < pts.len()
        invariant
            1 <= i <= pts@.len(),
            mx as int == seq_min(xs_of(pts@.take(i as int))),
            my as int == seq_min(ys_of(pts@.take(i as int))),
        decreases pts@.len() - i,
    {
        proof {
            assert(xs_of(pts@.take(i + 1 as int)).drop_last() =~= xs_of(pts@.take(i as int)));
            assert(xs_of(pts@.take(i + 1 as int)).last() == pts@[i as int].0 as int);
            assert(ys_of(pts@.take(i + 1 as int)).drop_last() =~= ys_of(pts@.take(i as int)));
            assert(ys_of(pts@.take(i + 1 as int)).last() == pts@[i as int].1 as int);
        }
        if pts[i].0 < mx {
            mx = pts[i].0;
        }
        if pts[i].1 < my {
            my = pts[i].1;
        }
        i = i + 1;
    }
    proof {
        assert(pts@.take(pts@.len() as int) =~= pts@);
    }
    (mx, my)
}

/// The greatest padded-and-clamped x and y of a non-empty point list.
fn max_padded_coords(pts: &Vec<(u8, u8)>, size: (u8, u8)) -> (r: (u8, u8))
    requires
        pts@.len() > 0,
    ensures
        r.0 as int == seq_max(
            xs_of(pts@).map_values(|c: int| if c + 2 < size.0 as int { c + 2 } else { size.0 as int }),
        ),
        r.1 as int == seq_max(
            ys_of(pts@).map_values(|c: int| if c + 2 < size.1 as int { c + 2 } else { size.1 as int }),
        ),
{
    let ghost gx = |c: int| if c + 2 < size.0 as int { c + 2 } else { size.0 as int };
    let ghost gy = |c: int| if c + 2 < size.1 as int { c + 2 } else { size.1 as int };
    let mut mx: u8 = if (pts[0].0 as u32) + 2 < size.0 as u32 {
        pts[0].0 + 2
    } else {
        size.0
    };
    let mut my: u8 = if (pts[0].1 as u32) + 2 < size.1 as u32 {
        pts[0].1 + 2
    } else {
        size.1
    };
    let mut i: usize = 1;
    proof {
        assert(xs_of(pts@.take(1)).map_values(gx)[0] == gx(pts@[0].0 as int));
        assert(xs_of(pts@.take(1)).map_values(gx).len() == 1);
        assert(ys_of(pts@.take(1)).map_values(gy)[0] == gy(pts@[0].1 as int));
    }
    while i < pts.len()
        invariant
            1 <= i <= pts@.len(),
            mx as int == seq_max(xs_of(pts@.take(i as int)).map_values(gx)),
            my as int == seq_max(ys_of(pts@.take(i as int)).map_values(gy)),
            gx == (|c: int| if c + 2 < size.0 as int { c + 2 } else { size.0 as int }),
            gy == (|c: int| if c + 2 < size.1 as int { c + 2 } else { size.1 as int }),
        decreases pts@.len() - i,
    {
        proof {
            assert(xs_of(pts@.take(i + 1 as int)).map_values(gx).drop_last() =~= xs_of(
                pts@.take(i as int),
            ).map_values(gx));
            assert(xs_of(pts@.take(i + 1 as int)).map_values(gx).last() == gx(
                pts@[i as int].0 as int,
            ));
            assert(ys_of(pts@.take(i + 1 as int)).map_values(gy).drop_last() =~= ys_of(
                pts@.take(i as int),
            ).map_values(gy));
            assert(ys_of(pts@.take(i + 1 as int)).map_values(gy).last() == gy(
                pts@[i as int].1 as int,
            ));
        }
        let cx: u8 = if (pts[i].0 as u32) + 2 < size.0 as u32 {
            pts[i].0 + 2
        } else {
            size.0
        };
        if cx > mx {
            mx = cx;
        }
        let cy: u8 = if (pts[i].1 as u32) + 2 < size.1 as u32 {
            pts[i].1 + 2
        } else {
            size.1
        };
        if cy > my {
            my = cy;
        }
        i = i + 1;
    }
    proof {
        assert(pts@.take(pts@.len() as int) =~= pts@);
    }
    (mx, my)
}

/// The points of every stone on the board.
fn stone_points(goban: &Goban) -> (r: Vec<(u8, u8)>)
    requires
        goban.wf(),
    ensures
        r@ == stones_list_of(goban@).map_values(|st: Stone| (st.x, st.y)),
{
    let ghost v = goban@;
    let stones = goban.stones();
    let mut pts: Vec<(u8, u8)> = Vec::new();
    let mut si: usize = 0;
    while si < stones.len()
        invariant
            0 <= si <= stones@.len(),
            stones@ == stones_list_of(v),
            v == goban@,
            pts@ == stones@.take(si as int).map_values(|st: Stone| (st.x, st.y)),
        decreases stones@.len() - si,
    {
        let st = stones[si];
        pts.push((st.x, st.y));
        proof {
            assert(stones@.take(si + 1 as int) =~= stones@.take(si as int).push(
                stones@[si as int],
            ));
            assert(pts@ =~= stones@.take(si + 1 as int).map_values(|st: Stone| (st.x, st.y)));
        }
        si = si + 1;
    }
    proof {
        assert(stones@.take(stones@.len() as int) =~= stones@);
    }
    pts
}

/// The labeled points of the most recent node.
fn label_points(goban: &Goban) -> (r: Vec<(u8, u8)>)
    ensures
        r@ == goban@.labels.map_values(|e: ((u8, u8), Seq<char>)| e.0),
{
    let ghost v = goban@;
    let ls = goban.labels();
    let mut pts: Vec<(u8, u8)> = Vec::new();
    let mut li: usize = 0;
    while li < ls.len()
        invariant
            0 <= li <= ls@.len(),
            crate::goban::labels_view(ls@) == v.labels,
            v == goban@,
            pts@ == crate::goban::labels_view(ls@).take(li as int).map_values(
                |e: ((u8, u8), Seq<char>)| e.0,
            ),
        decreases ls@.len() - li,
    {
        pts.push(ls[li].0);
        proof {
            let lw = crate::goban::labels_view(ls@);
            assert(lw[li as int].0 == ls@[li as int].0);
            assert(lw.take(li + 1 as int) =~= lw.take(li as int).push(lw[li as int]));
            assert(pts@ =~= lw.take(li + 1 as int).map_values(|e: ((u8, u8), Seq<char>)| e.0));
        }
        li = li + 1;
    }
    proof {
        let lw = crate::goban::labels_view(ls@);
        assert(lw.take(lw.len() as int) =~= lw);
    }
    pts
}

/// The points a shrink-wrapped display must cover, as one list.
#[verifier::rlimit(50)]
fn interest_points_vec(goban: &Goban, options: &MakeSvgOptions) -> (r: Vec<(u8, u8)>)
    requires
        goban.wf(),
    ensures
        r@ == interest_points(goban@, *options),
{
    let ghost v = goban@;
    let mut pts = stone_points(goban);
    let empty_pts: Vec<(u8, u8)> = Vec::new();
    let empty_pairs: Vec<((u8, u8), (u8, u8))> = Vec::new();
    proof {
        assert(pair_points(empty_pairs@) =~= Seq::<(u8, u8)>::empty());
    }
    if options.draw_marks {
        let more = goban.marks();
        append_points(&mut pts, &more);
    } else {
        append_points(&mut pts, &empty_pts);
    }
    if options.draw_triangles {
        let more = goban.triangles();
        append_points(&mut pts, &more);
    } else {
        append_points(&mut pts, &empty_pts);
    }
    if options.draw_circles {
        let more = goban.circles();
        append_points(&mut pts, &more);
    } else {
        append_points(&mut pts, &empty_pts);
    }
    if options.draw_squares {
        let more = goban.squares();
        append_points(&mut pts, &more);
    } else {
        append_points(&mut pts, &empty_pts);
    }
    if options.draw_selected {
        let more = goban.selected();
        append_points(&mut pts, &more);
    } else {
        append_points(&mut pts, &empty_pts);
    }
    if options.draw_labels {
        let more = label_points(goban);
        append_points(&mut pts, &more);
    } else {
        append_points(&mut pts, &empty_pts);
    }
    if options.draw_lines {
        let more = goban.lines();
        append_pair_points(&mut pts, &more);
    } else {
        append_pair_points(&mut pts, &empty_pairs);
    }
    if options.draw_arrows {
        let more = goban.arrows();
        append_pair_points(&mut pts, &more);
    } else {
        append_pair_points(&mut pts, &empty_pairs);
    }
    proof {
        assert(pts@ =~= interest_points(v, *options));
    }
    pts
}


impl GobanRange {
    /// The half-open column and row ranges this display choice shows of a
    /// finished board.  An explicit rectangle must stay on the board;
    /// shrink-wrap pads the points of interest by one and falls back to the
    /// whole board when there is nothing to show.
    pub fn get_ranges(&self, goban: &Goban, options: &MakeSvgOptions) -> (r: Result<
        ((u8, u8), (u8, u8)),
        GobanError,
    >)
        requires
            goban.wf(),
        ensures
            match self {
                GobanRange::FullBoard => r == Ok::<_, GobanError>(
                    ((0u8, goban@.size.0), (0u8, goban@.size.1)),
                ),
                GobanRange::Ranged(a, b) => {
                    if a.1 > goban@.size.0 || b.1 > goban@.size.1 {
                        r == Err::<((u8, u8), (u8, u8)), _>(GobanError::InvalidRange)
                    } else {
                        r == Ok::<_, GobanError>((*a, *b))
                    }
                },
                GobanRange::ShrinkWrap => {
                    let ranges = spec_shrink_ranges(goban@, *options);
                    &&& r is Ok
                    &&& r->Ok_0.0.0 as int == ranges.0.0
                    &&& r->Ok_0.0.1 as int == ranges.0.1
                    &&& r->Ok_0.1.0 as int == ranges.1.0
                    &&& r->Ok_0.1.1 as int == ranges.1.1
                },
            },
    {
        let goban_size = goban.size();
        match self {
            GobanRange::FullBoard => Ok(((0, goban_size.0), (0, goban_size.1))),
            GobanRange::Ranged(a, b) => {
                if a.1 > goban_size.0 || b.1 > goban_size.1 {
                    Err(GobanError::InvalidRange)
                } else {
                    Ok((*a, *b))
                }
            },
            GobanRange::ShrinkWrap => {
                let ghost v = goban@;
                let pts = interest_points_vec(goban, options);
                if pts.len() == 0 {
                    proof {
                        assert(xs_of(pts@).len() == 0);
                        assert(ys_of(pts@).len() == 0);
                    }
                    return Ok(((0, goban_size.0), (0, goban_size.1)));
                }
                let (minx, miny) = min_coords(&pts);
                let (maxx, maxy) = max_padded_coords(&pts, goban_size);
                let x0 = {
                    let p = if minx > 0 {
                        minx - 1
                    } else {
                        0
                    };
                    if p == 1 {
                        0
                    } else {
                        p
                    }
                };
                let x1 = if goban_size.0 > 0 && maxx == goban_size.0 - 1 {
                    goban_size.0
                } else {
                    maxx
                };
                let y0 = {
                    let p = if miny > 0 {
                        miny - 1
                    } else {
                        0
                    };
                    if p == 1 {
                        0
                    } else {
                        p
                    }
                };
                let y1 = if goban_size.1 > 0 && maxy == goban_size.1 - 1 {
                    goban_size.1
                } else {
                    maxy
                };
                Ok(((x0, x1), (y0, y1)))
            },
        }
    }
}

} // verus!
