use vstd::prelude::*;
use crate::layout::Rect;

verus! {

/// An arrow-key direction.
#[derive(Clone, Copy, Debug, PartialEq, Eq)]
pub enum Direction {
    Up,
    Down,
    Left,
    Right,
}

pub open spec fn overlap_x(a: Rect, b: Rect) -> bool {
    (a.x as int) < b.right() && (b.x as int) < a.right()
}

pub open spec fn overlap_y(a: Rect, b: Rect) -> bool {
    (a.y as int) < b.bottom() && (b.y as int) < a.bottom()
}

/// `b` lies beyond `a`'s edge in direction `d`, and the two overlap across it.
pub open spec fn is_candidate(a: Rect, b: Rect, d: Direction) -> bool {
    match d {
        Direction::Right => b.x as int >= a.right() && overlap_y(a, b),
        Direction::Left => b.right() <= a.x as int && overlap_y(a, b),
        Direction::Down => b.y as int >= a.bottom() && overlap_x(a, b),
        Direction::Up => b.bottom() <= a.y as int && overlap_x(a, b),
    }
}

/// Distance from `a`'s edge in direction `d` to the facing edge of `b`.
pub open spec fn gap(a: Rect, b: Rect, d: Direction) -> int {
    match d {
        Direction::Right => b.x as int - a.right(),
        Direction::Left => a.x as int - b.right(),
        Direction::Down => b.y as int - a.bottom(),
        Direction::Up => a.y as int - b.bottom(),
    }
}

pub open spec fn abs_diff(p: int, q: int) -> int {
    if p >= q {
        p - q
    } else {
        q - p
    }
}

/// Twice the distance between the centers of `a` and `b` across direction `d`.
pub open spec fn offset(a: Rect, b: Rect, d: Direction) -> int {
    match d {
        Direction::Right | Direction::Left => abs_diff(
            2 * b.y as int + b.height as int,
            2 * a.y as int + a.height as int,
        ),
        Direction::Up | Direction::Down => abs_diff(
            2 * b.x as int + b.width as int,
            2 * a.x as int + a.width as int,
        ),
    }
}

/// `b` is strictly nearer to `a` than `c` in direction `d`: a smaller gap, or an
/// equal gap and a smaller offset between centers.
pub open spec fn nearer(a: Rect, b: Rect, c: Rect, d: Direction) -> bool {
    gap(a, b, d) < gap(a, c, d) || (gap(a, b, d) == gap(a, c, d) && offset(a, b, d) < offset(
        a,
        c,
        d,
    ))
}

pub open spec fn has_neighbor(rects: Seq<Rect>, from: int, d: Direction) -> bool {
    exists|j: int| 0 <= j < rects.len() && j != from && is_candidate(rects[from], #[trigger] rects[j], d)
}

/// `r` is a nearest neighbor of `from` in direction `d`.
pub open spec fn is_nearest(rects: Seq<Rect>, from: int, r: int, d: Direction) -> bool {
    &&& 0 <= r < rects.len()
    &&& r != from
    &&& is_candidate(rects[from], rects[r], d)
    &&& forall|j: int|
        0 <= j < rects.len() && j != from && is_candidate(rects[from], #[trigger] rects[j], d)
            ==> !nearer(rects[from], rects[j], rects[r], d)
}

fn candidate(a: Rect, b: Rect, d: Direction) -> (r: bool)
    ensures
        r == is_candidate(a, b, d),
{
    let (ax, ay, aw, ah) = (a.x as u32, a.y as u32, a.width as u32, a.height as u32);
    let (bx, by, bw, bh) = (b.x as u32, b.y as u32, b.width as u32, b.height as u32);
    let ox = ax < bx + bw && bx < ax + aw;
    let oy = ay < by + bh && by < ay + ah;
    match d {
        Direction::Right => bx >= ax + aw && oy,
        Direction::Left => bx + bw <= ax && oy,
        Direction::Down => by >= ay + ah && ox,
        Direction::Up => by + bh <= ay && ox,
    }
}

/// The gap and the center offset of a candidate, as compared by `nearer`.
fn distance(a: Rect, b: Rect, d: Direction) -> (r: (u32, u32))
    requires
        is_candidate(a, b, d),
    ensures
        r.0 as int == gap(a, b, d),
        r.1 as int == offset(a, b, d),
{
    let (ax, ay, aw, ah) = (a.x as u32, a.y as u32, a.width as u32, a.height as u32);
    let (bx, by, bw, bh) = (b.x as u32, b.y as u32, b.width as u32, b.height as u32);
    let (g, p, q) = match d {
        Direction::Right => (bx - (ax + aw), 2 * by + bh, 2 * ay + ah),
        Direction::Left => (ax - (bx + bw), 2 * by + bh, 2 * ay + ah),
        Direction::Down => (by - (ay + ah), 2 * bx + bw, 2 * ax + aw),
        Direction::Up => (ay - (by + bh), 2 * bx + bw, 2 * ax + aw),
    };
    let o = if p >= q {
        p - q
    } else {
        q - p
    };
    (g, o)
}

/// Where focus goes from widget `from` on a key press in direction `d`: the
/// nearest widget beyond that edge (the lowest index among equally near ones), or
/// `from` itself where there is none.
pub fn navigate(rects: &Vec<Rect>, from: usize, d: Direction) -> (r: usize)
    requires
        from < rects@.len(),
    ensures
        r < rects@.len(),
        has_neighbor(rects@, from as int, d) ==> is_nearest(rects@, from as int, r as int, d),
        !has_neighbor(rects@, from as int, d) ==> r == from,
{
    let a = rects[from];
    let mut best: usize = from;
    let mut best_key: (u32, u32) = (0, 0);
    let mut i: usize = 0;
    while i < rects.len()
        invariant
            from < rects@.len(),
            a == rects@[from as int],
            0 <= i <= rects@.len(),
            best < rects@.len(),
            best == from <==> !(exists|j: int|
                0 <= j < i && j != from && is_candidate(a, #[trigger] rects@[j], d)),
            best != from ==> best < i && is_candidate(a, rects@[best as int], d)
                && best_key.0 as int == gap(a, rects@[best as int], d) && best_key.1 as int
                == offset(a, rects@[best as int], d) && forall|j: int|
                0 <= j < i && j != from && is_candidate(a, #[trigger] rects@[j], d) ==> !nearer(
                    a,
                    rects@[j],
                    rects@[best as int],
                    d,
                ),
        decreases rects@.len() - i,
    {
        let b = rects[i];
        if i != from && candidate(a, b, d) {
            let k = distance(a, b, d);
            if best == from || k.0 < best_key.0 || (k.0 == best_key.0 && k.1 < best_key.1) {
                best = i;
                best_key = k;
            }
        }
        i = i + 1;
    }
    best
}

} // verus!
