use vstd::prelude::*;

verus! {

/// How a child of a row or column claims space along its parent's split axis.
#[derive(Clone, Copy, Debug, PartialEq, Eq)]
pub enum Constraint {
    /// An exact number of cells, granted before any ratio share.
    Fixed(u16),
    /// A weight among the flexible siblings.
    Ratio(u32),
}

/// Sum of the first `n` lengths.
pub open spec fn prefix_sum(lens: Seq<u16>, n: int) -> int
    decreases n,
{
    if n <= 0 {
        0
    } else {
        prefix_sum(lens, n - 1) + lens[n - 1] as int
    }
}

pub open spec fn is_flexible(c: Constraint) -> bool {
    c is Ratio
}

/// Index of the last flexible child, or of the last child where none is flexible.
pub open spec fn absorbing_index(cs: Seq<Constraint>) -> int {
    if exists|i: int| 0 <= i < cs.len() && is_flexible(#[trigger] cs[i]) {
        choose|i: int|
            0 <= i < cs.len() && is_flexible(#[trigger] cs[i]) && forall|j: int|
                i < j < cs.len() ==> !is_flexible(#[trigger] cs[j])
    } else {
        cs.len() - 1
    }
}

proof fn prefix_sum_step(lens: Seq<u16>, n: int)
    requires
        0 <= n,
    ensures
        prefix_sum(lens, n + 1) == prefix_sum(lens, n) + lens[n] as int,
{
}

proof fn prefix_sum_ext(a: Seq<u16>, b: Seq<u16>, n: int)
    requires
        0 <= n <= a.len(),
        n <= b.len(),
        forall|i: int| 0 <= i < n ==> a[i] == b[i],
    ensures
        prefix_sum(a, n) == prefix_sum(b, n),
    decreases n,
{
    if n > 0 {
        prefix_sum_ext(a, b, n - 1);
    }
}

/// What is left of `extent` once the fixed children among the first `k` (the
/// absorbing one `last` aside) have taken their sizes, never below zero.
pub open spec fn fixed_room(extent: int, cs: Seq<Constraint>, last: int, k: int) -> int
    decreases k,
{
    if k <= 0 {
        extent
    } else {
        let p = fixed_room(extent, cs, last, k - 1);
        match cs[k - 1] {
            Constraint::Fixed(f) => if k - 1 != last {
                if f <= p {
                    p - f
                } else {
                    0
                }
            } else {
                p
            },
            Constraint::Ratio(_) => p,
        }
    }
}

/// Total weight of the flexible children among the first `k`.
pub open spec fn ratio_sum(cs: Seq<Constraint>, k: int) -> int
    decreases k,
{
    if k <= 0 {
        0
    } else {
        ratio_sum(cs, k - 1) + match cs[k - 1] {
            Constraint::Fixed(_) => 0,
            Constraint::Ratio(r) => r as int,
        }
    }
}

pub open spec fn min(a: int, b: int) -> int {
    if a <= b {
        a
    } else {
        b
    }
}

/// The length of child `i` when `left` cells remain, `space` cells are shared by
/// ratio with total weight `total`, and child `last` absorbs the remainder.
pub open spec fn child_len(cs: Seq<Constraint>, i: int, left: int, space: int, total: int, last: int) -> int {
    if i == last {
        left
    } else {
        match cs[i] {
            Constraint::Fixed(f) => min(f as int, left),
            Constraint::Ratio(r) => min(
                if total == 0 {
                    0
                } else {
                    space * r as int / total
                },
                left,
            ),
        }
    }
}

/// The lengths of the first `n` children when `extent` cells are split.
pub open spec fn split_upto(extent: int, cs: Seq<Constraint>, n: int) -> Seq<u16>
    decreases n,
{
    if n <= 0 {
        Seq::empty()
    } else {
        let prev = split_upto(extent, cs, n - 1);
        let last = absorbing_index(cs);
        prev.push(
            child_len(
                cs,
                n - 1,
                extent - prefix_sum(prev, n - 1),
                fixed_room(extent, cs, last, cs.len() as int),
                ratio_sum(cs, cs.len() as int),
                last,
            ) as u16,
        )
    }
}

/// The lengths that splitting `extent` cells among children `cs` gives.
pub open spec fn split_spec(extent: int, cs: Seq<Constraint>) -> Seq<u16> {
    split_upto(extent, cs, cs.len() as int)
}

/// Splits `extent` cells among children with the given constraints.
///
/// Fixed children get their size first (as far as space remains); the rest is
/// shared by ratio among flexible children, and whatever rounding leaves over
/// goes to the last flexible child (the last child where none is flexible), so
/// the lengths always add up to `extent` exactly.
pub fn split_extent(extent: u16, cs: &Vec<Constraint>) -> (lens: Vec<u16>)
    ensures
        lens@ == split_spec(extent as int, cs@),
        lens@.len() == cs@.len(),
        cs@.len() > 0 ==> prefix_sum(lens@, lens@.len() as int) == extent as int,
        cs@.len() == 0 ==> lens@.len() == 0,
        forall|i: int|
            0 <= i < cs@.len() && i != absorbing_index(cs@) && cs@[i] is Fixed ==> lens@[i]
                <= cs@[i]->Fixed_0,
{
    let n = cs.len();
    if n == 0 {
        return Vec::new();
    }
    // Which child absorbs the remainder.
    let mut last: usize = n - 1;
    let mut found = false;
    let mut k: usize = 0;
    while k < n
        invariant
            n == cs@.len(),
            0 <= k <= n,
            last < n,
            found ==> is_flexible(cs@[last as int]) && forall|j: int|
                last < j < k ==> !is_flexible(#[trigger] cs@[j]),
            !found ==> last == n - 1 && forall|j: int| 0 <= j < k ==> !is_flexible(#[trigger] cs@[j]),
        decreases n - k,
    {
        if let Constraint::Ratio(_) = cs[k] {
            last = k;
            found = true;
        }
        k = k + 1;
    }
    proof {
        if found {
            let w = last as int;
            assert(0 <= w < cs@.len() && is_flexible(cs@[w]) && forall|j: int|
                w < j < cs@.len() ==> !is_flexible(#[trigger] cs@[j]));
            let c = absorbing_index(cs@);
            assert(0 <= c < cs@.len() && is_flexible(cs@[c]) && forall|j: int|
                c < j < cs@.len() ==> !is_flexible(#[trigger] cs@[j]));
            if c < w {
                assert(!is_flexible(cs@[w]));
            }
            if w < c {
                assert(!is_flexible(cs@[c]));
            }
        } else {
            assert(!(exists|i: int| 0 <= i < cs@.len() && is_flexible(#[trigger] cs@[i])));
        }
        assert(last as int == absorbing_index(cs@));
    }
    // Space taken by fixed children, and total weight of flexible ones.
    let mut fixed_left: u16 = extent;
    let mut total_ratio: u128 = 0;
    let mut k: usize = 0;
    while k < n
        invariant
            n == cs@.len(),
            0 <= k <= n,
            total_ratio <= k * 0xFFFF_FFFFu128,
            k <= usize::MAX,
            last < n,
            fixed_left as int == fixed_room(extent as int, cs@, last as int, k as int),
            total_ratio as int == ratio_sum(cs@, k as int),
        decreases n - k,
    {
        match cs[k] {
            Constraint::Fixed(f) => {
                if k != last {
                    fixed_left = if f <= fixed_left { fixed_left - f } else { 0 };
                }
            },
            Constraint::Ratio(r) => {
                total_ratio = total_ratio + r as u128;
            },
        }
        proof {
            assert(total_ratio <= (k + 1) * 0xFFFF_FFFFu128) by (nonlinear_arith)
                requires total_ratio <= k * 0xFFFF_FFFFu128 + 0xFFFF_FFFFu128;
        }
        k = k + 1;
    }
    let flexible_space = fixed_left;
    let mut lens: Vec<u16> = Vec::new();
    let mut left: u16 = extent;
    let mut i: usize = 0;
    while i < n
        invariant
            n == cs@.len(),
            0 <= i <= n,
            last < n,
            last as int == absorbing_index(cs@),
            lens@.len() == i,
            lens@ == split_upto(extent as int, cs@, i as int),
            flexible_space as int == fixed_room(extent as int, cs@, last as int, n as int),
            total_ratio as int == ratio_sum(cs@, n as int),
            prefix_sum(lens@, i as int) + left as int == extent as int,
            i > last ==> left == 0,
            forall|j: int|
                0 <= j < i && j != last && cs@[j] is Fixed ==> lens@[j] <= cs@[j]->Fixed_0,
        decreases n - i,
    {
        let len: u16 = if i == last {
            left
        } else {
            match cs[i] {
                Constraint::Fixed(f) => if f <= left {
                    f
                } else {
                    left
                },
                Constraint::Ratio(r) => {
                    let share: u128 = if total_ratio == 0 {
                        0
                    } else {
                        proof {
                            assert(flexible_space as u128 * r as u128 <= 0xFFFFu128 * 0xFFFF_FFFFu128)
                                by (nonlinear_arith)
                                requires flexible_space <= 0xFFFFu16, r <= 0xFFFF_FFFFu32;
                        }
                        (flexible_space as u128 * r as u128) / total_ratio
                    };
                    if share <= left as u128 {
                        share as u16
                    } else {
                        left
                    }
                },
            }
        };
        proof {
            prefix_sum_step(lens@.push(len), i as int);
            prefix_sum_ext(lens@, lens@.push(len), i as int);
            assert(len as int == child_len(
                cs@,
                i as int,
                extent - prefix_sum(lens@, i as int),
                fixed_room(extent as int, cs@, last as int, cs@.len() as int),
                ratio_sum(cs@, cs@.len() as int),
                last as int,
            ));
        }
        lens.push(len);
        left = left - len;
        i = i + 1;
    }
    lens
}


/// A screen region, in cells.
#[derive(Clone, Copy, Debug, PartialEq, Eq)]
pub struct Rect {
    pub x: u16,
    pub y: u16,
    pub width: u16,
    pub height: u16,
}

impl Rect {
    /// The region fits in the coordinate space.
    pub open spec fn wf(self) -> bool {
        self.x as int + self.width as int <= u16::MAX as int && self.y as int + self.height as int
            <= u16::MAX as int
    }

    pub open spec fn right(self) -> int {
        self.x as int + self.width as int
    }

    pub open spec fn bottom(self) -> int {
        self.y as int + self.height as int
    }

    pub open spec fn within(self, outer: Rect) -> bool {
        outer.x <= self.x && self.right() <= outer.right() && outer.y <= self.y && self.bottom()
            <= outer.bottom()
    }
}

/// The children's rectangles tile `parent` along one axis: the first starts at the
/// parent's start, each next one starts where the previous ends, the last ends at
/// the parent's end, and all share the parent's extent on the other axis.
pub open spec fn tiles(parent: Rect, kids: Seq<Rect>, horizontal: bool) -> bool {
    &&& kids.len() > 0
    &&& forall|i: int| 0 <= i < kids.len() ==> #[trigger] kids[i].wf()
    &&& if horizontal {
        &&& kids[0].x == parent.x
        &&& kids.last().right() == parent.right()
        &&& forall|i: int| 0 <= i < kids.len() - 1 ==> kids[i + 1].x == #[trigger] kids[i].right()
        &&& forall|i: int|
            0 <= i < kids.len() ==> #[trigger] kids[i].y == parent.y && kids[i].height
                == parent.height
    } else {
        &&& kids[0].y == parent.y
        &&& kids.last().bottom() == parent.bottom()
        &&& forall|i: int|
            0 <= i < kids.len() - 1 ==> kids[i + 1].y == #[trigger] kids[i].bottom()
        &&& forall|i: int|
            0 <= i < kids.len() ==> #[trigger] kids[i].x == parent.x && kids[i].width
                == parent.width
    }
}

/// The rectangles that cutting `parent` by `cs` gives: side by side when
/// `horizontal`, stacked otherwise, with the lengths of `split_spec`.
pub open spec fn split_rect_spec(parent: Rect, horizontal: bool, cs: Seq<Constraint>) -> Seq<Rect> {
    let lens = split_spec(if horizontal { parent.width as int } else { parent.height as int }, cs);
    Seq::new(
        cs.len(),
        |q: int|
            if horizontal {
                Rect {
                    x: (parent.x + prefix_sum(lens, q)) as u16,
                    y: parent.y,
                    width: lens[q],
                    height: parent.height,
                }
            } else {
                Rect {
                    x: parent.x,
                    y: (parent.y + prefix_sum(lens, q)) as u16,
                    width: parent.width,
                    height: lens[q],
                }
            },
    )
}

/// Cuts `parent` into one rectangle per constraint: side by side when
/// `horizontal` (a row), stacked otherwise (a column).
pub fn split_rect(parent: Rect, horizontal: bool, cs: &Vec<Constraint>) -> (kids: Vec<Rect>)
    requires
        parent.wf(),
    ensures
        kids@ == split_rect_spec(parent, horizontal, cs@),
        kids@.len() == cs@.len(),
        cs@.len() > 0 ==> tiles(parent, kids@, horizontal),
        forall|i: int| 0 <= i < kids@.len() ==> (#[trigger] kids@[i]).within(parent) && kids@[i].wf(),
{
    let extent = if horizontal {
        parent.width
    } else {
        parent.height
    };
    let lens = split_extent(extent, cs);
    let mut kids: Vec<Rect> = Vec::new();
    let mut pos: u16 = if horizontal {
        parent.x
    } else {
        parent.y
    };
    let start = pos;
    let mut i: usize = 0;
    while i < lens.len()
        invariant
            lens@.len() == cs@.len(),
            lens@ == split_spec(extent as int, cs@),
            cs@.len() > 0 ==> prefix_sum(lens@, lens@.len() as int) == extent as int,
            parent.wf(),
            extent == (if horizontal { parent.width } else { parent.height }),
            start == (if horizontal { parent.x } else { parent.y }),
            0 <= i <= lens@.len(),
            kids@.len() == i,
            pos as int == start as int + prefix_sum(lens@, i as int),
            i > 0 ==> (if horizontal { kids@[0].x == parent.x } else { kids@[0].y == parent.y }),
            i > 0 ==> (if horizontal { kids@[i - 1].right() == pos as int } else { kids@[i
                - 1].bottom() == pos as int }),
            forall|j: int| 0 <= j < i ==> (#[trigger] kids@[j]).within(parent) && kids@[j].wf(),
            forall|j: int|
                0 <= j < i ==> if horizontal {
                    #[trigger] kids@[j].y == parent.y && kids@[j].height == parent.height
                        && kids@[j].width == lens@[j] && kids@[j].x as int == start as int
                        + prefix_sum(lens@, j)
                } else {
                    #[trigger] kids@[j].x == parent.x && kids@[j].width == parent.width
                        && kids@[j].height == lens@[j] && kids@[j].y as int == start as int
                        + prefix_sum(lens@, j)
                },
        decreases lens@.len() - i,
    {
        proof {
            prefix_sum_step(lens@, i as int);
            prefix_sum_upto(lens@, i as int + 1, lens@.len() as int);
        }
        let len = lens[i];
        let r = if horizontal {
            Rect { x: pos, y: parent.y, width: len, height: parent.height }
        } else {
            Rect { x: parent.x, y: pos, width: parent.width, height: len }
        };
        kids.push(r);
        pos = pos + len;
        i = i + 1;
    }
    proof {
        if cs@.len() > 0 {
            assert forall|j: int| 0 <= j < kids@.len() - 1 implies (if horizontal {
                kids@[j + 1].x == #[trigger] kids@[j].right()
            } else {
                kids@[j + 1].y == kids@[j].bottom()
            }) by {
                prefix_sum_step(lens@, j);
            }
        }
        assert(kids@ =~= split_rect_spec(parent, horizontal, cs@));
    }
    kids
}

proof fn prefix_sum_upto(lens: Seq<u16>, m: int, n: int)
    requires
        0 <= m <= n,
    ensures
        prefix_sum(lens, m) <= prefix_sum(lens, n),
    decreases n - m,
{
    if m < n {
        prefix_sum_upto(lens, m, n - 1);
    }
}


/// What a node of the declarative layout tree is.
#[derive(Clone, Copy, Debug, PartialEq, Eq)]
pub enum NodeKind {
    /// Children side by side.
    Row,
    /// Children stacked.
    Column,
    /// A leaf with its stable widget id.
    Widget(u64),
}

/// A node of the layout tree, kept in an arena: `children` are indices into the
/// arena, and node 0 is the root. A child index that is not after its parent's
/// own index is ignored, so every walk of the tree ends.
#[derive(Clone, Debug)]
pub struct LayoutNode {
    pub kind: NodeKind,
    pub constraint: Constraint,
    pub children: Vec<usize>,
}

/// The widget id of the single widget that stands in for a layout that cannot be
/// drawn.
pub const FALLBACK_ID: u64 = 0;

/// Widget ids and their screen rectangles, index for index.
#[derive(Clone, Debug)]
pub struct ResolvedLayout {
    pub ids: Vec<u64>,
    pub rects: Vec<Rect>,
}

pub open spec fn screen(width: u16, height: u16) -> Rect {
    Rect { x: 0, y: 0, width, height }
}

impl ResolvedLayout {
    pub open spec fn wf(self) -> bool {
        self.ids@.len() == self.rects@.len() && self.ids@.len() > 0
    }

    /// The single full-screen fallback widget.
    pub open spec fn is_fallback(self, width: u16, height: u16) -> bool {
        self.ids@ == seq![FALLBACK_ID] && self.rects@ == seq![screen(width, height)]
    }
}

/// The valid children among the first `m` listed by node `i`: those after `i` in
/// the arena.
pub open spec fn kids_of(nodes: Seq<LayoutNode>, i: int, m: int) -> Seq<usize>
    decreases m,
{
    if m <= 0 {
        Seq::empty()
    } else {
        let p = kids_of(nodes, i, m - 1);
        let ch = nodes[i].children@[m - 1];
        if i < ch && ch < nodes.len() {
            p.push(ch)
        } else {
            p
        }
    }
}

pub open spec fn kids_spec(nodes: Seq<LayoutNode>, i: int) -> Seq<usize> {
    kids_of(nodes, i, nodes[i].children@.len() as int)
}

pub open spec fn cs_of(nodes: Seq<LayoutNode>, kids: Seq<usize>) -> Seq<Constraint> {
    Seq::new(kids.len(), |q: int| nodes[kids[q] as int].constraint)
}

/// `slots` with the first `m` of `kids` given their `parts`, in order.
pub open spec fn place_upto(slots: Seq<Option<Rect>>, kids: Seq<usize>, parts: Seq<Rect>, m: int) -> Seq<Option<Rect>>
    decreases m,
{
    if m <= 0 {
        slots
    } else {
        place_upto(slots, kids, parts, m - 1).update(kids[m - 1] as int, Some(parts[m - 1]))
    }
}

/// `slots` with the valid children of node `i` given their parts of `r`.
pub open spec fn place_spec(nodes: Seq<LayoutNode>, slots: Seq<Option<Rect>>, i: int, r: Rect, horizontal: bool) -> Seq<Option<Rect>> {
    let k = kids_spec(nodes, i);
    place_upto(slots, k, split_rect_spec(r, horizontal, cs_of(nodes, k)), k.len() as int)
}

pub open spec fn initial_slots(n: int, width: u16, height: u16) -> Seq<Option<Rect>> {
    Seq::new(n as nat, |j: int| if j == 0 { Some(screen(width, height)) } else { None })
}

/// The region of every node once the first `i` nodes have been laid out: the
/// root holds the screen, and each row or column, in arena order, cuts its
/// region among its valid children.
pub open spec fn slots_after(nodes: Seq<LayoutNode>, width: u16, height: u16, i: int) -> Seq<Option<Rect>>
    decreases i,
{
    if i <= 0 {
        initial_slots(nodes.len() as int, width, height)
    } else {
        let prev = slots_after(nodes, width, height, i - 1);
        let j = i - 1;
        match prev[j] {
            Some(r) => match nodes[j].kind {
                NodeKind::Widget(_) => prev,
                NodeKind::Row => place_spec(nodes, prev, j, r, true),
                NodeKind::Column => place_spec(nodes, prev, j, r, false),
            },
            None => prev,
        }
    }
}

/// The region of node `i` once laid out: nodes after it never change it.
pub open spec fn region(nodes: Seq<LayoutNode>, width: u16, height: u16, i: int) -> Option<Rect> {
    slots_after(nodes, width, height, i)[i]
}

/// The ids and regions of the reachable widgets among the first `i` nodes with
/// area, in arena order, and whether one among them has none.
pub open spec fn collect(nodes: Seq<LayoutNode>, width: u16, height: u16, i: int) -> (Seq<u64>, Seq<Rect>, bool)
    decreases i,
{
    if i <= 0 {
        (Seq::empty(), Seq::empty(), false)
    } else {
        let prev = collect(nodes, width, height, i - 1);
        match (region(nodes, width, height, i - 1), nodes[i - 1].kind) {
            (Some(r), NodeKind::Widget(id)) => if r.width == 0 || r.height == 0 {
                (prev.0, prev.1, true)
            } else {
                (prev.0.push(id), prev.1.push(r), prev.2)
            },
            _ => prev,
        }
    }
}

/// Some widget is reachable, and every reachable widget has area.
pub open spec fn drawable(nodes: Seq<LayoutNode>, width: u16, height: u16) -> bool {
    let c = collect(nodes, width, height, nodes.len() as int);
    !c.2 && c.0.len() > 0
}

/// Gives the valid children of node `i` their parts of `r`.
fn place_children(
    nodes: &Vec<LayoutNode>,
    i: usize,
    r: Rect,
    horizontal: bool,
    slots: &mut Vec<Option<Rect>>,
    full: Rect,
)
    requires
        i < nodes@.len(),
        old(slots)@.len() == nodes@.len(),
        r.within(full),
        r.wf(),
        full.wf(),
        forall|j: int|
            0 <= j < old(slots)@.len() && (#[trigger] old(slots)@[j]) is Some ==> old(slots)@[j]->Some_0.within(full)
                && old(slots)@[j]->Some_0.wf(),
    ensures
        final(slots)@ == place_spec(nodes@, old(slots)@, i as int, r, horizontal),
        final(slots)@.len() == nodes@.len(),
        forall|j: int|
            0 <= j < final(slots)@.len() && (#[trigger] final(slots)@[j]) is Some ==> final(slots)@[j]->Some_0.within(full)
                && final(slots)@[j]->Some_0.wf(),
{
    let ghost s0 = slots@;
    let n = nodes.len();
    let node = &nodes[i];
    let mut kids: Vec<usize> = Vec::new();
    let mut cs: Vec<Constraint> = Vec::new();
    let mut c: usize = 0;
    while c < node.children.len()
        invariant
            n == nodes@.len(),
            0 <= c <= node.children@.len(),
            kids@.len() == cs@.len(),
            i < n,
            *node == nodes@[i as int],
            kids@ == kids_of(nodes@, i as int, c as int),
            cs@ =~= cs_of(nodes@, kids@),
            forall|q: int| 0 <= q < kids@.len() ==> (#[trigger] kids@[q]) < n,
        decreases node.children@.len() - c,
    {
        let ch = node.children[c];
        if i < ch && ch < n {
            kids.push(ch);
            cs.push(nodes[ch].constraint);
        }
        c = c + 1;
    }
    let parts = split_rect(r, horizontal, &cs);
    let mut q: usize = 0;
    assert(cs@ =~= cs_of(nodes@, kids@));
    while q < kids.len()
        invariant
            n == nodes@.len(),
            slots@.len() == n,
            r.within(full),
            full.wf(),
            parts@.len() == kids@.len(),
            0 <= q <= kids@.len(),
            kids@ == kids_spec(nodes@, i as int),
            parts@ == split_rect_spec(r, horizontal, cs_of(nodes@, kids@)),
            slots@ == place_upto(s0, kids@, parts@, q as int),
            forall|t: int| 0 <= t < kids@.len() ==> (#[trigger] kids@[t]) < n,
            forall|t: int| 0 <= t < parts@.len() ==> (#[trigger] parts@[t]).within(r) && parts@[t].wf(),
            forall|j: int|
                0 <= j < n && (#[trigger] slots@[j]) is Some ==> slots@[j]->Some_0.within(full)
                    && slots@[j]->Some_0.wf(),
        decreases kids@.len() - q,
    {
        let part = parts[q];
        slots.set(kids[q], Some(part));
        q = q + 1;
    }
}

/// Compiles the layout tree against a terminal of `width` by `height` cells.
///
/// Every widget reachable from the root gets the rectangle that splitting its
/// ancestors gives. Where the tree is empty, holds no widget, or gives some
/// widget no area, the result is one fallback widget covering the screen.
pub fn compile(nodes: &Vec<LayoutNode>, width: u16, height: u16) -> (out: ResolvedLayout)
    ensures
        out.wf(),
        drawable(nodes@, width, height) ==> out.ids@ == collect(nodes@, width, height, nodes@.len() as int).0
            && out.rects@ == collect(nodes@, width, height, nodes@.len() as int).1,
        !drawable(nodes@, width, height) ==> out.is_fallback(width, height),
        nodes@.len() == 0 ==> out.is_fallback(width, height),
        out.is_fallback(width, height) || forall|j: int|
            0 <= j < out.rects@.len() ==> (#[trigger] out.rects@[j]).within(screen(width, height))
                && out.rects@[j].wf() && out.rects@[j].width > 0 && out.rects@[j].height > 0,
{
    let full = Rect { x: 0, y: 0, width, height };
    let n = nodes.len();
    let mut slots: Vec<Option<Rect>> = Vec::new();
    let mut k: usize = 0;
    while k < n
        invariant
            0 <= k <= n,
            slots@.len() == k,
            forall|j: int| 0 <= j < k ==> slots@[j] is None || j == 0,
            k > 0 ==> slots@[0] == Some(full),
        decreases n - k,
    {
        if k == 0 {
            slots.push(Some(full));
        } else {
            slots.push(None);
        }
        k = k + 1;
    }
    let mut ids: Vec<u64> = Vec::new();
    let mut rects: Vec<Rect> = Vec::new();
    let mut degenerate = false;
    let mut i: usize = 0;
    assert(slots@ =~= initial_slots(n as int, width, height));
    while i < n
        invariant
            n == nodes@.len(),
            slots@.len() == n,
            full == screen(width, height),
            0 <= i <= n,
            ids@.len() == rects@.len(),
            i == 0 ==> ids@.len() == 0,
            slots@ == slots_after(nodes@, width, height, i as int),
            ids@ == collect(nodes@, width, height, i as int).0,
            rects@ == collect(nodes@, width, height, i as int).1,
            degenerate == collect(nodes@, width, height, i as int).2,
            forall|j: int|
                0 <= j < n && (#[trigger] slots@[j]) is Some ==> slots@[j]->Some_0.within(full)
                    && slots@[j]->Some_0.wf(),
            forall|j: int|
                0 <= j < rects@.len() ==> (#[trigger] rects@[j]).within(full) && rects@[j].wf()
                    && rects@[j].width > 0 && rects@[j].height > 0,
        decreases n - i,
    {
        if let Some(r) = slots[i] {
            assert(slots@[i as int] is Some);
            let node = &nodes[i];
            match node.kind {
                NodeKind::Widget(id) => {
                    if r.width == 0 || r.height == 0 {
                        degenerate = true;
                    } else {
                        ids.push(id);
                        rects.push(r);
                    }
                },
                NodeKind::Row | NodeKind::Column => {
                    let horizontal = match node.kind {
                        NodeKind::Row => true,
                        _ => false,
                    };
                    place_children(nodes, i, r, horizontal, &mut slots, full);
                },
            }
        }
        i = i + 1;
    }
    if degenerate || ids.len() == 0 {
        let mut ids: Vec<u64> = Vec::new();
        ids.push(FALLBACK_ID);
        let mut rects: Vec<Rect> = Vec::new();
        rects.push(full);
        proof {
            assert(ids@ =~= seq![FALLBACK_ID]);
            assert(rects@ =~= seq![screen(width, height)]);
        }
        ResolvedLayout { ids, rects }
    } else {
        ResolvedLayout { ids, rects }
    }
}

impl ResolvedLayout {
    /// The widget that focus moves to from widget `from` in direction `d`.
    pub fn neighbor(&self, from: usize, d: crate::focus::Direction) -> (r: usize)
        requires
            self.wf(),
            from < self.ids@.len(),
        ensures
            r < self.ids@.len(),
            crate::focus::has_neighbor(self.rects@, from as int, d) ==> crate::focus::is_nearest(
                self.rects@,
                from as int,
                r as int,
                d,
            ),
            !crate::focus::has_neighbor(self.rects@, from as int, d) ==> r == from,
    {
        crate::focus::navigate(&self.rects, from, d)
    }
}


proof fn lemma_split_upto(extent: int, cs: Seq<Constraint>, n: int)
    requires
        0 <= extent <= u16::MAX,
        0 <= n <= cs.len(),
    ensures
        split_upto(extent, cs, n).len() == n,
        prefix_sum(split_upto(extent, cs, n), n) <= extent,
        cs.len() > 0 && n > absorbing_index(cs) ==> prefix_sum(split_upto(extent, cs, n), n) == extent,
    decreases n,
{
    if cs.len() > 0 {
        lemma_absorbing(cs);
    }
    if n > 0 {
        lemma_split_upto(extent, cs, n - 1);
        let prev = split_upto(extent, cs, n - 1);
        let cur = split_upto(extent, cs, n);
        prefix_sum_step(cur, n - 1);
        prefix_sum_ext(prev, cur, n - 1);
        lemma_fixed_room(extent, cs, absorbing_index(cs), cs.len() as int);
        lemma_ratio_sum(cs, cs.len() as int);
        let space = fixed_room(extent, cs, absorbing_index(cs), cs.len() as int);
        let total = ratio_sum(cs, cs.len() as int);
        let last = absorbing_index(cs);
        lemma_absorbing(cs);
        match cs[n - 1] {
            Constraint::Ratio(r) => {
                if total != 0 {
                    assert(space * r as int / total >= 0) by (nonlinear_arith)
                        requires space >= 0, r >= 0, total > 0;
                }
            },
            _ => {},
        }
        prefix_sum_upto(prev, 0, n - 1);
        let left = extent - prefix_sum(prev, n - 1);
        let len = child_len(cs, n - 1, left, space, total, last);
        assert(0 <= left <= extent);
        assert(0 <= len <= left);
        assert(cur[n - 1] as int == len);
        if n - 1 == last {
            assert(len == left);
        } else if n - 1 > last {
            assert(left == 0);
        }
    }
}

proof fn lemma_fixed_room(extent: int, cs: Seq<Constraint>, last: int, k: int)
    requires
        0 <= extent,
    ensures
        fixed_room(extent, cs, last, k) >= 0,
    decreases k,
{
    if k > 0 {
        lemma_fixed_room(extent, cs, last, k - 1);
    }
}

proof fn lemma_ratio_sum(cs: Seq<Constraint>, k: int)
    ensures
        ratio_sum(cs, k) >= 0,
    decreases k,
{
    if k > 0 {
        lemma_ratio_sum(cs, k - 1);
    }
}

proof fn lemma_absorbing(cs: Seq<Constraint>)
    requires
        cs.len() > 0,
    ensures
        0 <= absorbing_index(cs) < cs.len(),
{
    if exists|i: int| 0 <= i < cs.len() && is_flexible(#[trigger] cs[i]) {
        let w = choose|i: int| 0 <= i < cs.len() && is_flexible(#[trigger] cs[i]);
        let m = choose|i: int| w <= i < cs.len() && is_flexible(#[trigger] cs[i]) && forall|j: int|
            i < j < cs.len() ==> !is_flexible(#[trigger] cs[j]);
        lemma_last_flexible(cs, w, w);
    }
}

proof fn lemma_last_flexible(cs: Seq<Constraint>, w: int, k: int)
    requires
        0 <= w <= k < cs.len(),
        is_flexible(cs[k]),
    ensures
        exists|i: int|
            0 <= i < cs.len() && is_flexible(#[trigger] cs[i]) && forall|j: int|
                i < j < cs.len() ==> !is_flexible(#[trigger] cs[j]),
    decreases cs.len() - k,
{
    if exists|j: int| k < j < cs.len() && is_flexible(#[trigger] cs[j]) {
        let j = choose|j: int| k < j < cs.len() && is_flexible(#[trigger] cs[j]);
        lemma_last_flexible(cs, w, j);
    } else {
        assert(forall|j: int| k < j < cs.len() ==> !is_flexible(#[trigger] cs[j]));
    }
}

/// Cutting a rectangle by any non-empty list of constraints tiles it: the
/// parts start at its start, follow one another without gap or overlap, end at
/// its end, and span it across the other axis.
pub proof fn lemma_split_tiles(parent: Rect, horizontal: bool, cs: Seq<Constraint>)
    requires
        parent.wf(),
        cs.len() > 0,
    ensures
        tiles(parent, split_rect_spec(parent, horizontal, cs), horizontal),
{
    let extent = if horizontal { parent.width as int } else { parent.height as int };
    let lens = split_spec(extent, cs);
    let kids = split_rect_spec(parent, horizontal, cs);
    let n = cs.len() as int;
    lemma_absorbing(cs);
    lemma_split_upto(extent, cs, n);
    assert forall|q: int| 0 <= q <= n implies prefix_sum(lens, q) + (if q < n { lens[q] as int } else { 0 }) <= extent by {
        if q < n {
            prefix_sum_step(lens, q);
            prefix_sum_upto(lens, q + 1, n);
        } else {
        }
        prefix_sum_upto(lens, q, n);
    }
    assert forall|q: int| 0 <= q < n implies #[trigger] kids[q].wf() by {
        prefix_sum_step(lens, q);
        prefix_sum_upto(lens, q + 1, n);
        prefix_sum_upto(lens, 0, q);
    }
    assert(prefix_sum(lens, 0) == 0);
    if horizontal {
        assert forall|q: int| 0 <= q < n - 1 implies kids[q + 1].x == #[trigger] kids[q].right() by {
            prefix_sum_step(lens, q);
            prefix_sum_upto(lens, q + 1, n);
            prefix_sum_upto(lens, 0, q);
        }
        prefix_sum_step(lens, n - 1);
        prefix_sum_upto(lens, 0, n - 1);
        assert(kids.last() == kids[n - 1]);
    } else {
        assert forall|q: int| 0 <= q < n - 1 implies kids[q + 1].y == #[trigger] kids[q].bottom() by {
            prefix_sum_step(lens, q);
            prefix_sum_upto(lens, q + 1, n);
            prefix_sum_upto(lens, 0, q);
        }
        prefix_sum_step(lens, n - 1);
        prefix_sum_upto(lens, 0, n - 1);
        assert(kids.last() == kids[n - 1]);
    }
}


/// Every node is listed, once, by at most one row or column.
pub open spec fn tree_shaped(nodes: Seq<LayoutNode>) -> bool {
    &&& forall|i: int, a: int, b: int|
        0 <= i < nodes.len() && 0 <= a < b < kids_spec(nodes, i).len() ==> #[trigger] kids_spec(nodes, i)[a]
            != #[trigger] kids_spec(nodes, i)[b]
    &&& forall|i: int, j: int, x: usize|
        0 <= i < nodes.len() && 0 <= j < nodes.len() && i != j && #[trigger] kids_spec(nodes, i).contains(x)
            ==> !#[trigger] kids_spec(nodes, j).contains(x)
}

proof fn lemma_kids_valid(nodes: Seq<LayoutNode>, i: int, m: int)
    requires
        0 <= i < nodes.len(),
        0 <= m <= nodes[i].children@.len(),
    ensures
        forall|q: int| 0 <= q < kids_of(nodes, i, m).len() ==> i < #[trigger] kids_of(nodes, i, m)[q] && kids_of(nodes, i, m)[q] < nodes.len(),
    decreases m,
{
    if m > 0 {
        lemma_kids_valid(nodes, i, m - 1);
        let p = kids_of(nodes, i, m - 1);
        let ch = nodes[i].children@[m - 1];
        if i < ch && ch < nodes.len() {
            assert forall|q: int| 0 <= q < p.len() implies #[trigger] p.push(ch)[q] == p[q] by {}
        }
    }
}

proof fn lemma_place_other(slots: Seq<Option<Rect>>, kids: Seq<usize>, parts: Seq<Rect>, m: int, x: int)
    requires
        0 <= m <= kids.len(),
        forall|q: int| 0 <= q < m ==> (kids[q] as int) < slots.len(),
        forall|q: int| 0 <= q < m ==> kids[q] as int != x,
        0 <= x < slots.len(),
    ensures
        place_upto(slots, kids, parts, m).len() == slots.len(),
        place_upto(slots, kids, parts, m)[x] == slots[x],
    decreases m,
{
    if m > 0 {
        lemma_place_other(slots, kids, parts, m - 1, x);
    }
}

proof fn lemma_place_len(slots: Seq<Option<Rect>>, kids: Seq<usize>, parts: Seq<Rect>, m: int)
    requires
        m <= kids.len(),
        forall|q: int| 0 <= q < m ==> (kids[q] as int) < slots.len(),
    ensures
        place_upto(slots, kids, parts, m).len() == slots.len(),
    decreases m,
{
    if m > 0 {
        lemma_place_len(slots, kids, parts, m - 1);
    }
}

proof fn lemma_place_at(slots: Seq<Option<Rect>>, kids: Seq<usize>, parts: Seq<Rect>, m: int, q: int)
    requires
        0 <= q < m <= kids.len(),
        forall|a: int, b: int| 0 <= a < b < m ==> kids[a] != kids[b],
        forall|q: int| 0 <= q < m ==> (kids[q] as int) < slots.len(),

    ensures
        place_upto(slots, kids, parts, m)[kids[q] as int] == Some(parts[q]),
    decreases m,
{
    lemma_place_len(slots, kids, parts, m - 1);
    if q < m - 1 {
        lemma_place_at(slots, kids, parts, m - 1, q);
    }
}

proof fn lemma_slots_len(nodes: Seq<LayoutNode>, width: u16, height: u16, i: int)
    requires
        i <= nodes.len(),
    ensures
        slots_after(nodes, width, height, i).len() == nodes.len(),
    decreases i,
{
    if i > 0 {
        lemma_slots_len(nodes, width, height, i - 1);
        let prev = slots_after(nodes, width, height, i - 1);
        let k = kids_spec(nodes, i - 1);
        if 0 <= i - 1 < nodes.len() {
            lemma_kids_valid(nodes, i - 1, nodes[i - 1].children@.len() as int);
        }
        if 0 <= i - 1 < nodes.len() && prev[i - 1] is Some {
            let r = prev[i - 1]->Some_0;
            lemma_place_len(prev, k, split_rect_spec(r, true, cs_of(nodes, k)), k.len() as int);
            lemma_place_len(prev, k, split_rect_spec(r, false, cs_of(nodes, k)), k.len() as int);
        }
    }
}

proof fn lemma_slots_stable(nodes: Seq<LayoutNode>, width: u16, height: u16, t: int, x: int)
    requires
        0 <= t < nodes.len(),
        !kids_spec(nodes, t).contains(x as usize),
        0 <= x < nodes.len(),
    ensures
        slots_after(nodes, width, height, t + 1)[x] == slots_after(nodes, width, height, t)[x],
{
    let prev = slots_after(nodes, width, height, t);
    let k = kids_spec(nodes, t);
    lemma_kids_valid(nodes, t, nodes[t].children@.len() as int);
    lemma_slots_len(nodes, width, height, t);
    assert forall|q: int| 0 <= q < k.len() implies k[q] as int != x by {
        if k[q] as int == x {
            assert(k.contains(x as usize));
        }
    }
    if prev[t] is Some {
        let r = prev[t]->Some_0;
        lemma_place_other(prev, k, split_rect_spec(r, true, cs_of(nodes, k)), k.len() as int, x);
        lemma_place_other(prev, k, split_rect_spec(r, false, cs_of(nodes, k)), k.len() as int, x);
    }
}

proof fn lemma_slots_kept(nodes: Seq<LayoutNode>, width: u16, height: u16, i: int, x: int, t: int)
    requires
        0 <= i < x < nodes.len(),
        i < t <= x,
        forall|u: int| i < u < x ==> !(#[trigger] kids_spec(nodes, u)).contains(x as usize),
    ensures
        slots_after(nodes, width, height, t)[x] == slots_after(nodes, width, height, i + 1)[x],
    decreases t - i,
{
    if t > i + 1 {
        lemma_slots_kept(nodes, width, height, i, x, t - 1);
        assert(!kids_spec(nodes, t - 1).contains(x as usize));
        lemma_slots_stable(nodes, width, height, t - 1, x);
    }
}

proof fn lemma_slots_wf(nodes: Seq<LayoutNode>, width: u16, height: u16, i: int)
    requires
        i <= nodes.len(),
    ensures
        forall|j: int|
            0 <= j < slots_after(nodes, width, height, i).len() && (#[trigger] slots_after(nodes, width, height, i)[j]) is Some
                ==> slots_after(nodes, width, height, i)[j]->Some_0.wf(),
    decreases i,
{
    if i > 0 {
        lemma_slots_wf(nodes, width, height, i - 1);
        lemma_slots_len(nodes, width, height, i - 1);
        let prev = slots_after(nodes, width, height, i - 1);
        let k = kids_spec(nodes, i - 1);
        if 0 <= i - 1 < prev.len() && prev[i - 1] is Some && !(nodes[i - 1].kind is Widget) {
            lemma_kids_valid(nodes, i - 1, nodes[i - 1].children@.len() as int);
            let r = prev[i - 1]->Some_0;
            let h = nodes[i - 1].kind is Row;
            let parts = split_rect_spec(r, h, cs_of(nodes, k));
            if k.len() > 0 {
                lemma_split_tiles(r, h, cs_of(nodes, k));
            }
            lemma_place_wf(prev, k, parts, k.len() as int);
        }
    }
}

proof fn lemma_place_wf(slots: Seq<Option<Rect>>, kids: Seq<usize>, parts: Seq<Rect>, m: int)
    requires
        0 <= m <= kids.len(),
        m <= parts.len(),
        forall|q: int| 0 <= q < m ==> (kids[q] as int) < slots.len(),

        forall|j: int| 0 <= j < slots.len() && (#[trigger] slots[j]) is Some ==> slots[j]->Some_0.wf(),
        forall|q: int| 0 <= q < m ==> (#[trigger] parts[q]).wf(),
    ensures
        forall|j: int|
            0 <= j < place_upto(slots, kids, parts, m).len() && (#[trigger] place_upto(slots, kids, parts, m)[j]) is Some
                ==> place_upto(slots, kids, parts, m)[j]->Some_0.wf(),
    decreases m,
{
    if m > 0 {
        lemma_place_wf(slots, kids, parts, m - 1);
        lemma_place_len(slots, kids, parts, m - 1);
    }
}

/// In a tree-shaped layout, the final region of each valid child of a laid-out
/// row or column is its part of the parent's region, and those parts tile the
/// parent's region: no gap, no overlap, the extents adding up to the parent's.
pub proof fn lemma_compile_tiles(nodes: Seq<LayoutNode>, width: u16, height: u16, i: int)
    requires
        tree_shaped(nodes),
        0 <= i < nodes.len(),
        region(nodes, width, height, i) is Some,
        !(nodes[i].kind is Widget),
        kids_spec(nodes, i).len() > 0,
    ensures
        ({
            let r = region(nodes, width, height, i)->Some_0;
            let k = kids_spec(nodes, i);
            let parts = split_rect_spec(r, nodes[i].kind is Row, cs_of(nodes, k));
            &&& tiles(r, parts, nodes[i].kind is Row)
            &&& forall|q: int| 0 <= q < k.len() ==> region(nodes, width, height, #[trigger] k[q] as int) == Some(parts[q])
        }),
{
    let r = region(nodes, width, height, i)->Some_0;
    let k = kids_spec(nodes, i);
    let h = nodes[i].kind is Row;
    let parts = split_rect_spec(r, h, cs_of(nodes, k));
    lemma_slots_wf(nodes, width, height, i);
    lemma_slots_len(nodes, width, height, i);
    lemma_split_tiles(r, h, cs_of(nodes, k));
    lemma_kids_valid(nodes, i, nodes[i].children@.len() as int);
    let prev = slots_after(nodes, width, height, i);
    assert(slots_after(nodes, width, height, i + 1) == place_upto(prev, k, parts, k.len() as int));
    assert forall|a: int, b: int| 0 <= a < b < k.len() implies k[a] != k[b] by {
        assert(kids_spec(nodes, i)[a] != kids_spec(nodes, i)[b]);
    }
    assert forall|q: int| 0 <= q < k.len() implies region(nodes, width, height, #[trigger] k[q] as int) == Some(parts[q]) by {
        lemma_place_at(prev, k, parts, k.len() as int, q);
        assert(k.contains(k[q]));
        assert forall|u: int| i < u < k[q] as int implies !(#[trigger] kids_spec(nodes, u)).contains(k[q]) by {
            assert(kids_spec(nodes, i).contains(k[q]));
        }
        lemma_slots_kept(nodes, width, height, i, k[q] as int, k[q] as int);
    }
}

} // verus!
