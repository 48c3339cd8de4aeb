//! The split-layout engine.
//!
//! A container tree of horizontal splits, vertical splits and leaves is turned
//! into one flat list of `(rectangle, key)` pairs for a given window size.  A
//! split hands out its extent along its axis child by child, in declaration
//! order: a fixed child takes its size in pixels, a percent child takes its
//! share of the space that remains for percent children at its turn, measured
//! against the percent weight still outstanding — so weights that sum to 100
//! fill the space exactly, and reordering children redistributes leftovers.
//! A fixed gap separates consecutive children.  Children never reach past
//! their parent: when the space runs out, the remaining rectangles collapse to
//! zero size rather than overlap, so the leaves of any tree are pairwise
//! disjoint.

use vstd::prelude::*;

verus! {

/// Ceiling on window coordinates, gaps and fixed sizes, far below any real
/// screen limit; it keeps every position sum inside `usize`.
pub const MAX_DIM: usize = usize::MAX / 4;

/// An axis-aligned rectangle: origin and size in pixels.
#[derive(Debug, Clone, Copy, PartialEq, Eq, Structural)]
pub struct Rect {
    pub x: usize,
    pub y: usize,
    pub w: usize,
    pub h: usize,
}

impl Rect {
    /// Whether the point lies inside the rectangle.
    pub fn contains_point(&self, px: usize, py: usize) -> (r: bool)
        requires
            self.x + self.w <= usize::MAX,
            self.y + self.h <= usize::MAX,
        ensures
            r == self.has_point(px as int, py as int),
    {
        px >= self.x && px < self.x + self.w && py >= self.y && py < self.y + self.h
    }

    /// The point lies inside the rectangle.
    pub open spec fn has_point(self, px: int, py: int) -> bool {
        self.x <= px < self.x + self.w && self.y <= py < self.y + self.h
    }
}

/// Two rectangles share a point.  A zero-width or zero-height rectangle
/// intersects nothing.
pub open spec fn rects_intersect(a: Rect, b: Rect) -> bool {
    &&& a.x < b.x + b.w
    &&& b.x < a.x + a.w
    &&& a.y < b.y + b.h
    &&& b.y < a.y + a.h
}

/// `a` lies inside `b`.
pub open spec fn rect_inside(a: Rect, b: Rect) -> bool {
    &&& b.x <= a.x
    &&& a.x + a.w <= b.x + b.w
    &&& b.y <= a.y
    &&& a.y + a.h <= b.y + b.h
}

/// How a child's `size` is read: a share of the remaining space, or pixels.
#[derive(Debug, Clone, Copy, PartialEq, Eq, Structural)]
pub enum SizeTypeEnum {
    Percent,
    Fixed,
}

/// What a tree node is: columns side by side, rows stacked, or a panel slot.
#[derive(Debug, Clone, Copy, PartialEq, Eq, Structural)]
pub enum ContainerType {
    HSplit,
    VSplit,
    Leaf,
}

/// One node of the layout tree.  A leaf carries the key of the panel that
/// fills its rectangle; a split carries its ordered children.
pub struct Container {
    pub size: usize,
    pub size_type: SizeTypeEnum,
    pub container_type: ContainerType,
    pub nodes: Option<Vec<Container>>,
    pub key: Option<String>,
}

/// A leaf holds a nonempty key and no children; a split holds at least one
/// child and no key, and every child is itself well formed.
pub open spec fn node_wf(c: Container) -> bool
    decreases c,
{
    match c.container_type {
        ContainerType::Leaf => {
            &&& c.key is Some
            &&& c.key->Some_0@.len() > 0
            &&& c.nodes is None
        },
        _ => {
            &&& c.nodes is Some
            &&& c.key is None
            &&& c.nodes->Some_0@.len() >= 1
            &&& forall|i: int|
                0 <= i < c.nodes->Some_0@.len() ==> node_wf(#[trigger] c.nodes->Some_0@[i])
        },
    }
}

/// Number of leaves below a node: how many rectangles it lays out.
pub open spec fn leaf_count(c: Container) -> nat
    decreases c,
{
    match c.container_type {
        ContainerType::Leaf => 1,
        _ => if c.nodes is Some {
            leaf_count_seq(c.nodes->Some_0@)
        } else {
            0
        },
    }
}

/// Number of leaves below a row of nodes.
pub open spec fn leaf_count_seq(cs: Seq<Container>) -> nat
    decreases cs,
{
    if cs.len() == 0 {
        0
    } else {
        leaf_count(cs[0]) + leaf_count_seq(cs.subrange(1, cs.len() as int))
    }
}

/// Sum of the sizes of the fixed children.
pub open spec fn fixed_sum(cs: Seq<Container>) -> int
    decreases cs.len(),
{
    if cs.len() == 0 {
        0
    } else {
        (if cs[0].size_type is Fixed {
            cs[0].size as int
        } else {
            0int
        }) + fixed_sum(cs.subrange(1, cs.len() as int))
    }
}

/// Sum of the sizes of the percent children: the outstanding percent weight.
pub open spec fn percent_sum(cs: Seq<Container>) -> int
    decreases cs.len(),
{
    if cs.len() == 0 {
        0
    } else {
        (if cs[0].size_type is Percent {
            cs[0].size as int
        } else {
            0int
        }) + percent_sum(cs.subrange(1, cs.len() as int))
    }
}

/// The space left for percent children: the extent less the gaps and the
/// fixed sizes, never below zero.
pub open spec fn percent_space(extent: int, n: int, gap: int, fixed: int) -> int {
    let after_gaps = extent - (n - 1) * gap;
    let g = if after_gaps >= 0 {
        after_gaps
    } else {
        0int
    };
    let a = g - fixed;
    if a >= 0 {
        a
    } else {
        0int
    }
}

/// The `(position, extent)` cells a split assigns to `children` along its
/// axis, walking from `pos` with `avail` space and `psum` percent weight
/// outstanding and the hard bound `end` never crossed.
pub open spec fn split_cells(
    children: Seq<Container>,
    pos: int,
    end: int,
    avail: int,
    psum: int,
    gap: int,
) -> Seq<(int, int)>
    decreases children.len(),
{
    if children.len() == 0 {
        Seq::empty()
    } else {
        let c = children[0];
        let want = if c.size_type is Fixed {
            c.size as int
        } else {
            if psum <= 0 {
                0int
            } else {
                avail * c.size / psum
            }
        };
        let space = if end - pos >= 0 {
            end - pos
        } else {
            0int
        };
        let cw = if want <= space {
            want
        } else {
            space
        };
        let avail2 = if c.size_type is Percent {
            avail - want
        } else {
            avail
        };
        let psum2 = if c.size_type is Percent {
            psum - c.size
        } else {
            psum
        };
        let pos2 = if pos + cw + gap <= end {
            pos + cw + gap
        } else {
            end
        };
        seq![(pos, cw)] + split_cells(
            children.subrange(1, children.len() as int),
            pos2,
            end,
            avail2,
            psum2,
            gap,
        )
    }
}

/// Dropping the head of a cons leaves the tail.
proof fn lemma_cons_tail<A>(s: Seq<A>, x: A, t: Seq<A>)
    requires
        s =~= seq![x] + t,
    ensures
        s.subrange(1, s.len() as int) =~= t,
        s.len() == 1 + t.len(),
        s[0] == x,
{
    let c = seq![x] + t;
    assert forall|i: int| 0 <= i < t.len() implies s.subrange(1, s.len() as int)[i] == t[i] by {
        assert(s[i + 1] == c[i + 1]);
        assert(c[i + 1] == t[i]);
    }
}

/// Dropping a whole prefix leaves the rest.
proof fn lemma_concat_split<A>(s: Seq<A>, a: Seq<A>, b: Seq<A>)
    requires
        s =~= a + b,
    ensures
        s.subrange(a.len() as int, s.len() as int) =~= b,
        s.len() == a.len() + b.len(),
        forall|i: int| 0 <= i < a.len() ==> s[i] == a[i],
        forall|i: int| 0 <= i < b.len() ==> s[a.len() + i] == b[i],
{
    let c = a + b;
    assert forall|i: int| 0 <= i < b.len() implies s.subrange(a.len() as int, s.len() as int)[i]
        == b[i] by {
        assert(s[a.len() + i] == c[a.len() + i]);
        assert(c[a.len() + i] == b[i]);
    }
    assert forall|i: int| 0 <= i < a.len() implies s[i] == a[i] by {
        assert(s[i] == c[i]);
    }
    assert forall|i: int| 0 <= i < b.len() implies s[a.len() + i] == b[i] by {
        assert(s[a.len() + i] == c[a.len() + i]);
    }
}

/// A subrange of a subrange, as one cut.
proof fn lemma_subrange_again<A>(s: Seq<A>, a: int, b: int, c: int, d: int)
    requires
        0 <= a <= b <= s.len(),
        0 <= c <= d <= b - a,
    ensures
        s.subrange(a, b).subrange(c, d) =~= s.subrange(a + c, a + d),
{
    assert forall|i: int| 0 <= i < d - c implies #[trigger] s.subrange(a, b).subrange(c, d)[i]
        == s.subrange(a + c, a + d)[i] by {
        assert(s.subrange(a, b)[c + i] == s[a + c + i]);
        assert(s.subrange(a + c, a + d)[i] == s[a + c + i]);
    }
}

/// Cutting after the head of a suffix is cutting one further in.
proof fn lemma_subrange_shift<A>(s: Seq<A>, k: int, n: int)
    requires
        0 <= k < n <= s.len(),
    ensures
        s.subrange(k + 1, n) =~= s.subrange(k, n).subrange(1, n - k),
{
    assert forall|i: int| 0 <= i < n - k - 1 implies #[trigger] s.subrange(k + 1, n)[i] == s
        .subrange(k, n).subrange(1, n - k)[i] by {
        assert(s.subrange(k, n)[i + 1] == s[k + 1 + i]);
        assert(s.subrange(k + 1, n)[i] == s[k + 1 + i]);
    }
}

/// A split assigns one cell per child.
pub proof fn lemma_split_cells_len(
    children: Seq<Container>,
    pos: int,
    end: int,
    avail: int,
    psum: int,
    gap: int,
)
    ensures
        split_cells(children, pos, end, avail, psum, gap).len() == children.len(),
    decreases children.len(),
{
    if children.len() > 0 {
        let c = children[0];
        let want = if c.size_type is Fixed {
            c.size as int
        } else {
            if psum <= 0 {
                0int
            } else {
                avail * c.size / psum
            }
        };
        let space = if end - pos >= 0 {
            end - pos
        } else {
            0int
        };
        let cw = if want <= space {
            want
        } else {
            space
        };
        let avail2 = if c.size_type is Percent {
            avail - want
        } else {
            avail
        };
        let psum2 = if c.size_type is Percent {
            psum - c.size
        } else {
            psum
        };
        let pos2 = if pos + cw + gap <= end {
            pos + cw + gap
        } else {
            end
        };
        lemma_split_cells_len(
            children.subrange(1, children.len() as int),
            pos2,
            end,
            avail2,
            psum2,
            gap,
        );
    }
}

/// Sum of the cells' extents.
pub open spec fn cells_extent(cells: Seq<(int, int)>) -> int
    decreases cells.len(),
{
    if cells.len() == 0 {
        0
    } else {
        cells[0].1 + cells_extent(cells.subrange(1, cells.len() as int))
    }
}

/// The exact model of the layout: every `(rectangle, key)` pair a node emits
/// inside the rectangle `(x, y, w, h)`, in order.  A leaf emits its own
/// rectangle; a split cuts the rectangle by its cells and lets each child lay
/// its cell out in turn.
pub open spec fn layout_model(c: Container, x: int, y: int, w: int, h: int, gap: int) -> Seq<
    ((int, int, int, int), Seq<char>),
>
    decreases c,
{
    match c.container_type {
        ContainerType::Leaf => seq![(((x, y, w, h)), c.key->Some_0@)],
        _ => {
            if c.nodes is Some {
                let children = c.nodes->Some_0@;
                let horiz = c.container_type is HSplit;
                let extent = if horiz {
                    w
                } else {
                    h
                };
                let base = if horiz {
                    x
                } else {
                    y
                };
                let cells = split_cells(
                    children,
                    base,
                    base + extent,
                    percent_space(extent, children.len() as int, gap, fixed_sum(children)),
                    percent_sum(children),
                    gap,
                );
                layout_model_row(children, cells, horiz, x, y, w, h, gap)
            } else {
                Seq::empty()
            }
        },
    }
}

/// The pairs a row of children emits, child by child, each inside the cell it
/// was assigned.
pub open spec fn layout_model_row(
    children: Seq<Container>,
    cells: Seq<(int, int)>,
    horiz: bool,
    x: int,
    y: int,
    w: int,
    h: int,
    gap: int,
) -> Seq<((int, int, int, int), Seq<char>)>
    decreases children,
{
    if children.len() == 0 || cells.len() == 0 {
        Seq::empty()
    } else {
        let head = if horiz {
            layout_model(children[0], cells[0].0, y, cells[0].1, h, gap)
        } else {
            layout_model(children[0], x, cells[0].0, w, cells[0].1, gap)
        };
        head + layout_model_row(
            children.subrange(1, children.len() as int),
            cells.subrange(1, cells.len() as int),
            horiz,
            x,
            y,
            w,
            h,
            gap,
        )
    }
}

/// The emitted entry `e` realizes the modelled entry `m`.
pub open spec fn entry_matches(e: (Rect, String), m: ((int, int, int, int), Seq<char>)) -> bool {
    &&& e.0.x as int == m.0.0
    &&& e.0.y as int == m.0.1
    &&& e.0.w as int == m.0.2
    &&& e.0.h as int == m.0.3
    &&& e.1@ == m.1
}

pub proof fn lemma_fixed_sum_nonneg(cs: Seq<Container>)
    ensures
        0 <= fixed_sum(cs) <= cs.len() * (usize::MAX as int),
    decreases cs.len(),
{
    if cs.len() > 0 {
        lemma_fixed_sum_nonneg(cs.subrange(1, cs.len() as int));
        assert((cs.len() - 1) * (usize::MAX as int) + (usize::MAX as int) == cs.len() * (
        usize::MAX as int)) by (nonlinear_arith);
    }
}

pub proof fn lemma_percent_sum_nonneg(cs: Seq<Container>)
    ensures
        0 <= percent_sum(cs) <= cs.len() * (usize::MAX as int),
    decreases cs.len(),
{
    if cs.len() > 0 {
        lemma_percent_sum_nonneg(cs.subrange(1, cs.len() as int));
        assert((cs.len() - 1) * (usize::MAX as int) + (usize::MAX as int) == cs.len() * (
        usize::MAX as int)) by (nonlinear_arith);
    }
}

/// Conservation: when every child is a percent child and their weights sum to
/// the outstanding weight, the cells hand out exactly the available space —
/// nothing is lost to rounding, whatever the extent.  With `avail` the extent
/// less the gaps, the extents plus the gaps refill the parent.
pub proof fn lemma_split_conservation(
    children: Seq<Container>,
    pos: int,
    end: int,
    avail: int,
    psum: int,
    gap: int,
)
    requires
        children.len() >= 1,
        forall|i: int| 0 <= i < children.len() ==> (#[trigger] children[i].size_type) is Percent,
        psum == percent_sum(children),
        psum > 0,
        0 <= avail,
        0 <= gap,
        pos + avail + (children.len() - 1) * gap <= end,
    ensures
        cells_extent(split_cells(children, pos, end, avail, psum, gap)) == avail,
    decreases children.len(),
{
    let n = children.len() as int;
    let c = children[0];
    let rest = children.subrange(1, n);
    lemma_percent_sum_nonneg(rest);
    assert(c.size <= psum);
    let want = avail * c.size / psum;
    assert(0 <= want <= avail) by (nonlinear_arith)
        requires
            psum > 0,
            0 <= c.size <= psum,
            0 <= avail,
            want == avail * c.size / psum,
    ;
    assert(0 <= (n - 1) * gap) by (nonlinear_arith)
        requires
            n >= 1,
            gap >= 0,
    ;
    assert(want <= end - pos);
    assert(pos <= end);
    let cells = split_cells(children, pos, end, avail, psum, gap);
    let pos2 = if pos + want + gap <= end {
        pos + want + gap
    } else {
        end
    };
    let tail = split_cells(rest, pos2, end, avail - want, psum - c.size, gap);
    assert(cells =~= seq![(pos, want)] + tail);
    lemma_cons_tail(cells, (pos, want), tail);
    assert(cells[0].1 == want);
    assert(cells.subrange(1, cells.len() as int) =~= tail);
    if rest.len() == 0 {
        assert(psum == c.size);
        assert(want == avail) by (nonlinear_arith)
            requires
                psum > 0,
                c.size == psum,
                0 <= avail,
                want == avail * c.size / psum,
        ;
        assert(split_cells(rest, pos2, end, avail - want, psum - c.size, gap)
            == Seq::<(int, int)>::empty());
        assert(cells_extent(cells.subrange(1, cells.len() as int)) == 0);
        assert(cells_extent(cells) == want);
    } else {
        assert(gap <= (n - 1) * gap) by (nonlinear_arith)
            requires
                n >= 2,
                gap >= 0,
        ;
        assert((n - 2) * gap + gap == (n - 1) * gap) by (nonlinear_arith);
        assert(pos2 == pos + want + gap);
        if psum - c.size > 0 {
            lemma_split_conservation(rest, pos2, end, avail - want, psum - c.size, gap);
        } else {
            assert(c.size == psum);
            assert(want == avail) by (nonlinear_arith)
                requires
                    psum > 0,
                    c.size == psum,
                    0 <= avail,
                    want == avail * c.size / psum,
            ;
            lemma_split_cells_zero(rest, pos2, end, 0, 0, gap);
        }
    }
}

/// Conservation in the parent's terms: when a split's children are all
/// percent children with positive total weight, the extents they receive plus
/// the gaps between them refill the parent's extent exactly, for any extent
/// the gaps fit in.  The cells are the ones `generate` lays a root split out
/// with.
pub proof fn lemma_layout_conservation(children: Seq<Container>, extent: int, gap: int)
    requires
        children.len() >= 1,
        forall|i: int| 0 <= i < children.len() ==> (#[trigger] children[i].size_type) is Percent,
        percent_sum(children) > 0,
        0 <= gap,
        (children.len() - 1) * gap <= extent,
    ensures
        cells_extent(
            split_cells(
                children,
                0,
                extent,
                percent_space(extent, children.len() as int, gap, fixed_sum(children)),
                percent_sum(children),
                gap,
            ),
        ) + (children.len() - 1) * gap == extent,
{
    assert(fixed_sum(children) == 0) by {
        lemma_all_percent_fixed_zero(children);
    }
    let avail = extent - (children.len() - 1) * gap;
    assert(percent_space(extent, children.len() as int, gap, 0) == avail);
    lemma_split_conservation(children, 0, extent, avail, percent_sum(children), gap);
}

/// A row without fixed children has no fixed pixels to subtract.
proof fn lemma_all_percent_fixed_zero(children: Seq<Container>)
    requires
        forall|i: int| 0 <= i < children.len() ==> (#[trigger] children[i].size_type) is Percent,
    ensures
        fixed_sum(children) == 0,
    decreases children.len(),
{
    if children.len() > 0 {
        assert(children[0].size_type is Percent);
        lemma_all_percent_fixed_zero(children.subrange(1, children.len() as int));
    }
}

/// With no percent weight outstanding, every percent cell is empty.
proof fn lemma_split_cells_zero(
    children: Seq<Container>,
    pos: int,
    end: int,
    avail: int,
    psum: int,
    gap: int,
)
    requires
        forall|i: int| 0 <= i < children.len() ==> (#[trigger] children[i].size_type) is Percent,
        psum <= 0,
    ensures
        cells_extent(split_cells(children, pos, end, avail, psum, gap)) == 0,
    decreases children.len(),
{
    if children.len() > 0 {
        let cells = split_cells(children, pos, end, avail, psum, gap);
        let rest = children.subrange(1, children.len() as int);
        let pos2 = if pos + 0 + gap <= end {
            pos + 0 + gap
        } else {
            end
        };
        let psum2 = psum - children[0].size;
        let tail = split_cells(rest, pos2, end, avail, psum2, gap);
        assert(children[0].size_type is Percent);
        assert(cells =~= seq![(pos, 0int)] + tail);
        lemma_cons_tail(cells, (pos, 0int), tail);
        lemma_split_cells_zero(rest, pos2, end, avail, psum2, gap);
        assert(cells_extent(cells) == cells[0].1 + cells_extent(
            cells.subrange(1, cells.len() as int),
        ));
    }
}

/// The tree plus the gap between children: what `generate` lays out.
pub struct Layout {
    pub gap: usize,
    pub root: Container,
}

impl Layout {
    /// Rectangles for every leaf of the tree inside a `width` by `height`
    /// window: each inside the window, and no two intersecting.
    pub fn generate(&self, width: usize, height: usize) -> (out: Vec<(Rect, String)>)
        requires
            node_wf(self.root),
            width <= MAX_DIM,
            height <= MAX_DIM,
            self.gap <= MAX_DIM,
        ensures
            out@.len() == leaf_count(self.root),
            ({
                let model = layout_model(
                    self.root,
                    0,
                    0,
                    width as int,
                    height as int,
                    self.gap as int,
                );
                out@.len() == model.len() && forall|i: int|
                    0 <= i < model.len() ==> entry_matches(#[trigger] out@[i], model[i])
            }),
            forall|i: int|
                0 <= i < out@.len() ==> rect_inside(
                    (#[trigger] out@[i]).0,
                    Rect { x: 0, y: 0, w: width, h: height },
                ),
            forall|i: int, j: int|
                0 <= i < j < out@.len() ==> !rects_intersect(out@[i].0, out@[j].0),
    {
        let mut out: Vec<(Rect, String)> = Vec::new();
        compute(&self.root, Rect { x: 0, y: 0, w: width, h: height }, self.gap, &mut out);
        proof {
            assert(out@.subrange(0, out@.len() as int) =~= out@);
        }
        out
    }
}

/// Cuts `rect` up for `node`, appending one `(rectangle, key)` pair per leaf
/// below it to `out`.
#[verifier::loop_isolation(false)]
#[verifier::rlimit(50)]
fn compute(node: &Container, rect: Rect, gap: usize, out: &mut Vec<(Rect, String)>)
    requires
        node_wf(*node),
        rect.x + rect.w <= 2 * MAX_DIM,
        rect.y + rect.h <= 2 * MAX_DIM,
        gap <= MAX_DIM,
    ensures
        final(out)@.len() == old(out)@.len() + leaf_count(*node),
        forall|i: int| 0 <= i < old(out)@.len() ==> final(out)@[i] == old(out)@[i],
        forall|i: int|
            old(out)@.len() <= i < final(out)@.len() ==> rect_inside((#[trigger] final(out)@[i]).0, rect),
        forall|i: int, j: int|
            old(out)@.len() <= i < j < final(out)@.len() ==> !rects_intersect(
                final(out)@[i].0,
                final(out)@[j].0,
            ),
        node.container_type is Leaf ==> final(out)@.len() == old(out)@.len() + 1
            && final(out)@.last().0 == rect && final(out)@.last().1@ == node.key->Some_0@,
        ({
            let entries = final(out)@.subrange(old(out)@.len() as int, final(out)@.len() as int);
            let model = layout_model(
                *node,
                rect.x as int,
                rect.y as int,
                rect.w as int,
                rect.h as int,
                gap as int,
            );
            entries.len() == model.len() && forall|i: int|
                0 <= i < model.len() ==> entry_matches(#[trigger] entries[i], model[i])
        }),
    decreases *node,
{
    let is_leaf = matches!(node.container_type, ContainerType::Leaf);
    if is_leaf {
        let key = node.key.as_ref().unwrap();
        out.push((rect, key.clone()));
        proof {
            let entries = out@.subrange(old(out)@.len() as int, out@.len() as int);
            assert(entries.len() == 1);
            assert(entries[0] == out@[old(out)@.len() as int]);
        }
        return ;
    }
    let horiz = matches!(node.container_type, ContainerType::HSplit);
    let nodes: &Vec<Container> = node.nodes.as_ref().unwrap();
    let ghost children = node.nodes->Some_0@;
    assert(nodes@ == children);
    let n = nodes.len();
    let extent: usize = if horiz {
        rect.w
    } else {
        rect.h
    };
    let base: usize = if horiz {
        rect.x
    } else {
        rect.y
    };
    let cross_base: usize = if horiz {
        rect.y
    } else {
        rect.x
    };
    let cross_extent: usize = if horiz {
        rect.h
    } else {
        rect.w
    };

    // Outstanding percent weight and total fixed size, by a backward walk.
    let mut psum: u128 = 0;
    let mut fixedt: u128 = 0;
    let mut i: usize = n;
    while i > 0
        invariant
            0 <= i <= n,
            n == children.len(),
            nodes@ == children,
            psum as int == percent_sum(children.subrange(i as int, n as int)),
            fixedt as int == fixed_sum(children.subrange(i as int, n as int)),
        decreases i,
    {
        proof {
            let sufi = children.subrange(i as int, n as int);
            let suf1 = children.subrange(i - 1, n as int);
            assert(suf1[0] == children[i - 1]);
            assert(suf1.subrange(1, suf1.len() as int) =~= sufi);
            lemma_percent_sum_nonneg(sufi);
            lemma_fixed_sum_nonneg(sufi);
            assert(sufi.len() * (usize::MAX as int) <= (u128::MAX as int) - (usize::MAX as int))
                by (nonlinear_arith)
                requires
                    0 <= sufi.len() <= usize::MAX as int,
                    usize::MAX as int <= u64::MAX as int,
            ;
        }
        i = i - 1;
        match nodes[i].size_type {
            SizeTypeEnum::Percent => {
                psum = psum + (nodes[i].size as u128);
            },
            SizeTypeEnum::Fixed => {
                fixedt = fixedt + (nodes[i].size as u128);
            },
        }
    }
    proof {
        assert(children.subrange(0, n as int) =~= children);
    }

    // Space for percent children: extent less gaps, less fixed sizes.
    proof {
        assert(n >= 1);
        lemma_fixed_sum_nonneg(children);
        lemma_percent_sum_nonneg(children);
        assert((gap as int) * (((n - 1) as usize) as int) <= (u128::MAX as int))
            by (nonlinear_arith)
            requires
                0 <= gap as int <= usize::MAX as int,
                0 <= ((n - 1) as usize) as int <= usize::MAX as int,
                usize::MAX as int <= u64::MAX as int,
        ;
    }
    let total_gap: u128 = (gap as u128) * ((n - 1) as u128);
    proof {
        assert(total_gap as int == ((n as int) - 1) * (gap as int)) by (nonlinear_arith)
            requires
                total_gap as int == (gap as int) * (((n as int) - 1)),
        ;
    }
    let after_gaps: usize = if total_gap < (extent as u128) {
        extent - (total_gap as usize)
    } else {
        0
    };
    let avail0: usize = if fixedt < (after_gaps as u128) {
        after_gaps - (fixedt as usize)
    } else {
        0
    };
    proof {
        assert(avail0 as int == percent_space(
            extent as int,
            n as int,
            gap as int,
            fixed_sum(children),
        ));
    }

    let ghost cells = split_cells(
        children,
        base as int,
        base as int + extent as int,
        avail0 as int,
        psum as int,
        gap as int,
    );
    let end: usize = base + extent;
    let mut pos: usize = base;
    let mut avail: usize = avail0;
    let ghost out0 = out@;
    let ghost model = layout_model(
        *node,
        rect.x as int,
        rect.y as int,
        rect.w as int,
        rect.h as int,
        gap as int,
    );
    proof {
        lemma_split_cells_len(
            children,
            base as int,
            base as int + extent as int,
            avail0 as int,
            psum as int,
            gap as int,
        );
        assert(children.subrange(0, n as int) =~= children);
        assert(cells.subrange(0, n as int) =~= cells);
        assert(forall|q: int| 0 <= q < children.len() ==> node_wf(#[trigger] children[q]));
        assert(model == layout_model_row(
            children,
            cells,
            horiz,
            rect.x as int,
            rect.y as int,
            rect.w as int,
            rect.h as int,
            gap as int,
        ));
        assert(model.subrange(0, model.len() as int) =~= model);
    }
    let mut k: usize = 0;
    while k < n
        invariant
            0 <= k <= n,
            n == children.len(),
            nodes@ == children,
            forall|q: int| 0 <= q < children.len() ==> node_wf(#[trigger] children[q]),
            !(node.container_type is Leaf),
            base <= pos <= end,
            end == base + extent,
            extent as int <= 2 * MAX_DIM,
            base as int + extent as int <= 2 * MAX_DIM,
            cross_base as int + cross_extent as int <= 2 * MAX_DIM,
            gap <= MAX_DIM,
            avail <= MAX_DIM * 2,
            psum as int == percent_sum(children.subrange(k as int, n as int)),
            split_cells(
                children.subrange(k as int, n as int),
                pos as int,
                end as int,
                avail as int,
                psum as int,
                gap as int,
            ) =~= cells.subrange(k as int, n as int),
            cells.len() == n,
            out@.len() + leaf_count_seq(children.subrange(k as int, n as int)) == out0.len()
                + leaf_count_seq(children),
            out@.len() - out0.len() <= model.len(),
            layout_model_row(
                children.subrange(k as int, n as int),
                cells.subrange(k as int, n as int),
                horiz,
                rect.x as int,
                rect.y as int,
                rect.w as int,
                rect.h as int,
                gap as int,
            ) =~= model.subrange(out@.len() - out0.len(), model.len() as int),
            forall|q: int|
                0 <= q < out@.len() - out0.len() ==> entry_matches(
                    #[trigger] out@[out0.len() + q],
                    model[q],
                ),
            out@.len() >= out0.len(),
            forall|i: int| 0 <= i < out0.len() ==> out@[i] == out0[i],
            forall|i: int|
                out0.len() <= i < out@.len() ==> rect_inside((#[trigger] out@[i]).0, rect),
            forall|i: int|
                out0.len() <= i < out@.len() ==> (if horiz {
                    out@[i].0.x + out@[i].0.w
                } else {
                    out@[i].0.y + out@[i].0.h
                }) <= pos as int,
            forall|i: int, j: int|
                out0.len() <= i < j < out@.len() ==> !rects_intersect(out@[i].0, out@[j].0),
        decreases n - k,
    {
        let child = &nodes[k];
        let ghost pos_g = pos as int;
        let ghost avail_g = avail as int;
        let ghost psum_g = psum as int;
        let ghost suf = children.subrange(k as int, n as int);
        proof {
            assert(suf[0] == children[k as int]);
            assert(suf.subrange(1, suf.len() as int) =~= children.subrange(k + 1, n as int));
            lemma_percent_sum_nonneg(children.subrange(k + 1, n as int));
            assert(node_wf(children[k as int]));
            assert(leaf_count_seq(children.subrange(k as int, n as int)) == leaf_count(
                children[k as int],
            ) + leaf_count_seq(children.subrange(k + 1, n as int)));
        }
        let want: usize = match child.size_type {
            SizeTypeEnum::Fixed => child.size,
            SizeTypeEnum::Percent => {
                if psum == 0 {
                    0
                } else {
                    proof {
                        assert((child.size as int) <= psum_g);
                        assert((avail as int) * (child.size as int) <= (u128::MAX as int))
                            by (nonlinear_arith)
                            requires
                                0 <= avail as int <= usize::MAX as int,
                                0 <= child.size as int <= usize::MAX as int,
                        ;
                        assert(0 <= (avail as int) * (child.size as int) / (psum as int) <= (
                        avail as int)) by (nonlinear_arith)
                            requires
                                psum as int > 0,
                                0 <= child.size as int <= psum as int,
                                0 <= avail as int,
                        ;
                    }
                    ((avail as u128) * (child.size as u128) / (psum as u128)) as usize
                }
            },
        };
        let ghost swant: int = if child.size_type is Fixed {
            child.size as int
        } else {
            if psum_g <= 0 {
                0int
            } else {
                avail_g * child.size / psum_g
            }
        };
        proof {
            assert(want as int == swant);
            assert(child.size_type is Percent ==> want <= avail);
        }
        let space: usize = end - pos;
        let cw: usize = if want <= space {
            want
        } else {
            space
        };
        let ghost pos2_g: int = if pos_g + cw + gap <= end as int {
            pos_g + cw + gap
        } else {
            end as int
        };
        let ghost avail2_g: int = if child.size_type is Percent {
            avail_g - swant
        } else {
            avail_g
        };
        let ghost psum2_g: int = if child.size_type is Percent {
            psum_g - child.size
        } else {
            psum_g
        };
        proof {
            let cells_suf = split_cells(suf, pos_g, end as int, avail_g, psum_g, gap as int);
            let tail = split_cells(
                children.subrange(k + 1, n as int),
                pos2_g,
                end as int,
                avail2_g,
                psum2_g,
                gap as int,
            );
            assert(cells_suf =~= seq![(pos_g, cw as int)] + tail);
            lemma_cons_tail(cells_suf, (pos_g, cw as int), tail);
            assert(cells_suf == cells.subrange(k as int, n as int));
            lemma_subrange_shift(cells, k as int, n as int);
            assert(cells[k as int] == cells_suf[0]);
            assert(cells[k as int] == (pos_g, cw as int));
            assert(cells.subrange(k + 1, n as int) =~= tail);
        }
        match child.size_type {
            SizeTypeEnum::Percent => {
                avail = avail - want;
                psum = psum - (child.size as u128);
            },
            SizeTypeEnum::Fixed => {},
        }
        let child_rect = if horiz {
            Rect { x: pos, y: cross_base, w: cw, h: cross_extent }
        } else {
            Rect { x: cross_base, y: pos, w: cross_extent, h: cw }
        };
        proof {
            assert(decreases_to!(*node => node.nodes));
            assert(decreases_to!(node.nodes => node.nodes->Some_0));
            assert(decreases_to!(node.nodes->Some_0 => node.nodes->Some_0@));
            assert(decreases_to!(node.nodes->Some_0@ => node.nodes->Some_0@[k as int]));
            assert(*child == node.nodes->Some_0@[k as int]);
            assert(decreases_to!(*node => *child));
        }
        let ghost out_before = out@;
        compute(child, child_rect, gap, out);
        pos = pos + cw;
        if pos + gap <= end {
            pos = pos + gap;
        } else {
            pos = end;
        }
        proof {
            assert(pos as int == pos2_g);
            assert(avail as int == avail2_g);
            assert(psum as int == psum2_g);
            assert(rect_inside(child_rect, rect));
            assert forall|i: int, j: int|
                out0.len() <= i < j < out@.len() implies !rects_intersect(
                out@[i].0,
                out@[j].0,
            ) by {
                if i < out_before.len() && j >= out_before.len() {
                    assert(rect_inside(out@[j].0, child_rect));
                    assert((if horiz {
                        out@[i].0.x + out@[i].0.w
                    } else {
                        out@[i].0.y + out@[i].0.h
                    }) <= (if horiz {
                        child_rect.x as int
                    } else {
                        child_rect.y as int
                    }));
                }
            }
            // The new entries realize the model of this child, which is the
            // next stretch of the whole row's model.
            let done = out_before.len() - out0.len();
            let mrow = layout_model_row(
                children.subrange(k as int, n as int),
                cells.subrange(k as int, n as int),
                horiz,
                rect.x as int,
                rect.y as int,
                rect.w as int,
                rect.h as int,
                gap as int,
            );
            let cmodel = layout_model(
                children[k as int],
                child_rect.x as int,
                child_rect.y as int,
                child_rect.w as int,
                child_rect.h as int,
                gap as int,
            );
            let mrow2 = layout_model_row(
                children.subrange(k + 1, n as int),
                cells.subrange(k + 1, n as int),
                horiz,
                rect.x as int,
                rect.y as int,
                rect.w as int,
                rect.h as int,
                gap as int,
            );
            lemma_subrange_shift(children, k as int, n as int);
            lemma_subrange_shift(cells, k as int, n as int);
            assert(children.subrange(k as int, n as int)[0] == children[k as int]);
            assert(cells.subrange(k as int, n as int)[0] == cells[k as int]);
            assert(mrow =~= cmodel + mrow2);
            lemma_concat_split(model.subrange(done, model.len() as int), cmodel, mrow2);
            lemma_subrange_again(
                model,
                done,
                model.len() as int,
                cmodel.len() as int,
                model.len() - done,
            );
            assert(mrow2 =~= model.subrange(done + cmodel.len(), model.len() as int));
            let entries_child = out@.subrange(out_before.len() as int, out@.len() as int);
            assert(entries_child.len() == cmodel.len());
            assert(out@.len() - out0.len() == done + cmodel.len());
            assert forall|q: int|
                0 <= q < out@.len() - out0.len() implies entry_matches(
                #[trigger] out@[out0.len() + q],
                model[q],
            ) by {
                if q >= done {
                    assert(entries_child[q - done] == out@[out_before.len() + (q - done)]);
                    assert(entry_matches(entries_child[q - done], cmodel[q - done]));
                    assert(model[done + (q - done)] == cmodel[q - done]);
                } else {
                    assert(out@[out0.len() + q] == out_before[out0.len() + q]);
                }
            }
        }
        k = k + 1;
    }
    proof {
        assert(children.subrange(0, n as int) =~= children);
        assert(cells.subrange(0, n as int) =~= cells);
        assert(children.subrange(n as int, n as int) =~= Seq::<Container>::empty());
        assert(leaf_count_seq(Seq::<Container>::empty()) == 0);
        let entries = out@.subrange(out0.len() as int, out@.len() as int);
        assert(out@.len() - out0.len() == model.len());
        assert forall|i: int| 0 <= i < model.len() implies entry_matches(
            #[trigger] entries[i],
            model[i],
        ) by {
            assert(entries[i] == out@[out0.len() + i]);
        }
    }
}

} // verus!
