//! Tiled layout of panes: a binary tree of directional splits whose leaves
//! are panes, each showing one buffer by index.
use vstd::prelude::*;

verus! {

/// Thousandths: the unit of a split's ratio.
pub const RATIO_SCALE: u32 = 1000;

/// The ratio a new split starts with: half.
pub const HALF_RATIO: u16 = 500;

#[derive(Clone, Copy, Debug, PartialEq, Eq, Structural)]
pub enum SplitDirection {
    /// Panes stacked top and bottom.
    Horizontal,
    /// Panes side by side.
    Vertical,
}

/// A viewport onto the buffer at `buffer_index`, with its scroll offsets
/// and its rectangle on the screen.
#[derive(Clone, Copy, Debug)]
pub struct Pane {
    pub buffer_index: usize,
    pub viewport_offset: usize,
    pub horizontal_offset: usize,
    pub cursor_x: usize,
    pub cursor_y: usize,
    pub x: u16,
    pub y: u16,
    pub width: u16,
    pub height: u16,
}

/// Columns from either edge at which horizontal scrolling starts.
pub const SCROLL_MARGIN: usize = 5;

impl Pane {
    /// The pane's rectangle lies in the screen's coordinate space.
    pub open spec fn fits(self) -> bool {
        self.x + self.width <= u16::MAX && self.y + self.height <= u16::MAX
    }

    /// The same pane on another rectangle.
    pub open spec fn moved(self, x: u16, y: u16, width: u16, height: u16) -> Pane {
        Pane { x, y, width, height, ..self }
    }

    pub fn new(buffer_index: usize, x: u16, y: u16, width: u16, height: u16) -> (p: Pane)
        ensures
            p == (Pane {
                buffer_index,
                viewport_offset: 0,
                horizontal_offset: 0,
                cursor_x: 0,
                cursor_y: 0,
                x,
                y,
                width,
                height,
            }),
    {
        Pane {
            buffer_index,
            viewport_offset: 0,
            horizontal_offset: 0,
            cursor_x: 0,
            cursor_y: 0,
            x,
            y,
            width,
            height,
        }
    }

    pub fn resize(&mut self, x: u16, y: u16, width: u16, height: u16)
        ensures
            *final(self) == old(self).moved(x, y, width, height),
    {
        self.x = x;
        self.y = y;
        self.width = width;
        self.height = height;
    }

    /// Scrolls vertically so that `cursor_row` is among the pane's text
    /// rows (its height less two rows of border).
    pub fn adjust_viewport(&mut self, cursor_row: usize)
        ensures
            ({
                let visible = if old(self).height >= 2 { old(self).height - 2 } else { 0 };
                let off = old(self).viewport_offset;
                final(self).viewport_offset == if cursor_row < off {
                    cursor_row as int
                } else if cursor_row >= off + visible {
                    if visible > 0 && cursor_row >= visible - 1 {
                        cursor_row - (visible - 1)
                    } else if visible > 0 {
                        0
                    } else {
                        cursor_row as int
                    }
                } else {
                    off as int
                }
            }),
            *final(self) == (Pane { viewport_offset: final(self).viewport_offset, ..*old(self) }),
    {
        let visible = self.height.saturating_sub(2) as usize;
        if cursor_row < self.viewport_offset {
            self.viewport_offset = cursor_row;
        } else if cursor_row - self.viewport_offset >= visible {
            self.viewport_offset = cursor_row.saturating_sub(visible.saturating_sub(1));
        }
    }

    /// Scrolls horizontally so that `cursor_col` stays a margin away from
    /// both edges of a view `visible_width` columns wide.
    pub fn adjust_horizontal_offset(&mut self, cursor_col: usize, visible_width: usize)
        ensures
            ({
                let h = old(self).horizontal_offset;
                let m = SCROLL_MARGIN as int;
                let inner = if visible_width >= m { visible_width - m } else { 0 };
                let past = cursor_col + m + 1;
                final(self).horizontal_offset == if cursor_col < h + m {
                    if cursor_col >= m { cursor_col - m } else { 0 }
                } else if cursor_col >= h + inner {
                    if visible_width >= past {
                        0
                    } else if past - visible_width <= usize::MAX {
                        past - visible_width
                    } else {
                        usize::MAX as int
                    }
                } else {
                    h as int
                }
            }),
            *final(self) == (Pane { horizontal_offset: final(self).horizontal_offset, ..*old(self) }),
    {
        let h = self.horizontal_offset;
        if cursor_col < h || cursor_col - h < SCROLL_MARGIN {
            self.horizontal_offset = cursor_col.saturating_sub(SCROLL_MARGIN);
        } else if cursor_col - h >= visible_width.saturating_sub(SCROLL_MARGIN) {
            if visible_width > SCROLL_MARGIN && visible_width - SCROLL_MARGIN - 1 >= cursor_col {
                self.horizontal_offset = 0;
            } else if visible_width > SCROLL_MARGIN {
                self.horizontal_offset = cursor_col - (visible_width - SCROLL_MARGIN - 1);
            } else {
                self.horizontal_offset = cursor_col.saturating_add(SCROLL_MARGIN + 1 - visible_width);
            }
        }
    }
}

/// A node of the layout: a pane, or a split of its rectangle between two
/// children at `ratio` thousandths of its height (horizontal) or width
/// (vertical).
#[derive(Debug)]
pub enum SplitNode {
    Leaf(Pane),
    Split { direction: SplitDirection, ratio: u16, first: Box<SplitNode>, second: Box<SplitNode> },
}

/// The first child's share of `len` at `ratio` thousandths.
pub open spec fn share(len: int, ratio: int) -> int {
    len * ratio / 1000
}

/// The two parts of rectangle `(x, y, w, h)` split along `direction` at
/// `ratio` thousandths.
pub open spec fn split_rects(direction: SplitDirection, ratio: int, x: int, y: int, w: int, h: int) -> (
    (int, int, int, int),
    (int, int, int, int),
) {
    match direction {
        SplitDirection::Horizontal => {
            let f = share(h, ratio);
            ((x, y, w, f), (x, y + f, w, h - f))
        },
        SplitDirection::Vertical => {
            let f = share(w, ratio);
            ((x, y, f, h), (x + f, y, w - f, h))
        },
    }
}

/// Point `(px, py)` lies in rectangle `r`.
pub open spec fn contains(r: (int, int, int, int), px: int, py: int) -> bool {
    r.0 <= px < r.0 + r.2 && r.1 <= py < r.1 + r.3
}

impl SplitNode {
    /// The panes in depth-first, left-to-right order.
    pub open spec fn panes(self) -> Seq<Pane>
        decreases self,
    {
        match self {
            SplitNode::Leaf(p) => seq![p],
            SplitNode::Split { first, second, .. } => first.panes() + second.panes(),
        }
    }

    /// Every split's ratio lies strictly between 0 and 1.
    pub open spec fn ratios_ok(self) -> bool
        decreases self,
    {
        match self {
            SplitNode::Leaf(p) => true,
            SplitNode::Split { ratio, first, second, .. } => 0 < ratio < 1000 && first.ratios_ok()
                && second.ratios_ok(),
        }
    }

    /// The tree exactly tiles rectangle `(x, y, w, h)`: each leaf's pane has
    /// its part, and each split parts its rectangle at its ratio.
    pub open spec fn tiles(self, x: int, y: int, w: int, h: int) -> bool
        decreases self,
    {
        match self {
            SplitNode::Leaf(p) => p.x == x && p.y == y && p.width == w && p.height == h,
            SplitNode::Split { direction, ratio, first, second } => {
                let (r1, r2) = split_rects(direction, ratio as int, x, y, w, h);
                &&& first.tiles(r1.0, r1.1, r1.2, r1.3)
                &&& second.tiles(r2.0, r2.1, r2.2, r2.3)
            },
        }
    }

    /// The tree after laying it out on `(x, y, w, h)`.
    pub open spec fn laid_out(self, x: u16, y: u16, w: u16, h: u16) -> SplitNode
        decreases self,
    {
        match self {
            SplitNode::Leaf(p) => SplitNode::Leaf(p.moved(x, y, w, h)),
            SplitNode::Split { direction, ratio, first, second } => {
                let (r1, r2) = split_rects(direction, ratio as int, x as int, y as int, w as int, h as int);
                SplitNode::Split {
                    direction,
                    ratio,
                    first: Box::new(first.laid_out(r1.0 as u16, r1.1 as u16, r1.2 as u16, r1.3 as u16)),
                    second: Box::new(second.laid_out(r2.0 as u16, r2.1 as u16, r2.2 as u16, r2.3 as u16)),
                }
            },
        }
    }

    /// The tree with its `index`-th pane split along `direction`, the new
    /// half showing `new_buffer_index`.
    pub open spec fn split_at(self, index: int, direction: SplitDirection, new_buffer_index: usize) -> SplitNode
        decreases self,
    {
        match self {
            SplitNode::Leaf(p) => if index == 0 {
                split_leaf(p, direction, new_buffer_index)
            } else {
                self
            },
            SplitNode::Split { direction: d, ratio, first, second } => {
                let n = first.panes().len();
                if index < n {
                    SplitNode::Split { direction: d, ratio, first: Box::new(first.split_at(index, direction, new_buffer_index)), second }
                } else {
                    SplitNode::Split { direction: d, ratio, first, second: Box::new(second.split_at(index - n, direction, new_buffer_index)) }
                }
            },
        }
    }

    pub fn new_leaf(pane: Pane) -> (n: SplitNode)
        ensures
            n == SplitNode::Leaf(pane),
    {
        SplitNode::Leaf(pane)
    }

    /// Splits a pane in two halves along `direction`: the first keeps the
    /// pane's buffer, the second shows `new_buffer_index`. Only a leaf
    /// splits; false otherwise.
    pub fn split(&mut self, direction: SplitDirection, new_buffer_index: usize) -> (r: bool)
        requires
            *old(self) is Leaf ==> old(self)->Leaf_0.fits(),
        ensures
            r == (*old(self) is Leaf),
            r ==> *final(self) == old(self).split_at(0, direction, new_buffer_index),
            !r ==> *final(self) == *old(self),
    {
        match self {
            SplitNode::Leaf(pane) => {
                let p = *pane;
                *self = split_pane(p, direction, new_buffer_index);
                true
            },
            _ => false,
        }
    }

    /// Lays the tree out on `(x, y, width, height)`, parting each split's
    /// rectangle at its ratio.
    pub fn resize(&mut self, x: u16, y: u16, width: u16, height: u16)
        requires
            old(self).ratios_ok(),
            x + width <= u16::MAX,
            y + height <= u16::MAX,
        ensures
            *final(self) == old(self).laid_out(x, y, width, height),
        decreases *old(self),
    {
        match self {
            SplitNode::Leaf(pane) => {
                pane.resize(x, y, width, height);
            },
            SplitNode::Split { direction, ratio, first, second } => {
                match *direction {
                    SplitDirection::Horizontal => {
                        let f = share_of(height, *ratio);
                        (&mut **first).resize(x, y, width, f);
                        (&mut **second).resize(x, y + f, width, height - f);
                    },
                    SplitDirection::Vertical => {
                        let f = share_of(width, *ratio);
                        (&mut **first).resize(x, y, f, height);
                        (&mut **second).resize(x + f, y, width - f, height);
                    },
                }
            },
        }
    }
}

/// The first child's share of `len` at `ratio` thousandths.
fn share_of(len: u16, ratio: u16) -> (f: u16)
    requires
        ratio < 1000,
    ensures
        f == share(len as int, ratio as int),
        f <= len,
{
    proof {
        assert((len as int) * (ratio as int) <= 65535 * 1000) by (nonlinear_arith)
            requires ratio < 1000, len <= 65535, len >= 0, ratio >= 0;
    }
    let f = (len as u32) * (ratio as u32) / RATIO_SCALE;
    proof {
        assert((len as int) * (ratio as int) <= (len as int) * 1000) by (nonlinear_arith)
            requires ratio < 1000, len >= 0;
        assert(share(len as int, ratio as int) <= len) by (nonlinear_arith)
            requires (len as int) * (ratio as int) <= (len as int) * 1000, len >= 0;
    }
    f as u16
}

/// A pane split in two halves.
pub open spec fn split_leaf(p: Pane, direction: SplitDirection, new_buffer_index: usize) -> SplitNode {
    match direction {
        SplitDirection::Horizontal => {
            let half = p.height / 2;
            SplitNode::Split {
                direction,
                ratio: HALF_RATIO,
                first: Box::new(SplitNode::Leaf(Pane {
                    buffer_index: p.buffer_index,
                    viewport_offset: 0,
                    horizontal_offset: 0,
                    cursor_x: 0,
                    cursor_y: 0,
                    x: p.x,
                    y: p.y,
                    width: p.width,
                    height: half,
                })),
                second: Box::new(SplitNode::Leaf(Pane {
                    buffer_index: new_buffer_index,
                    viewport_offset: 0,
                    horizontal_offset: 0,
                    cursor_x: 0,
                    cursor_y: 0,
                    x: p.x,
                    y: (p.y + half) as u16,
                    width: p.width,
                    height: (p.height - half) as u16,
                })),
            }
        },
        SplitDirection::Vertical => {
            let half = p.width / 2;
            SplitNode::Split {
                direction,
                ratio: HALF_RATIO,
                first: Box::new(SplitNode::Leaf(Pane {
                    buffer_index: p.buffer_index,
                    viewport_offset: 0,
                    horizontal_offset: 0,
                    cursor_x: 0,
                    cursor_y: 0,
                    x: p.x,
                    y: p.y,
                    width: half,
                    height: p.height,
                })),
                second: Box::new(SplitNode::Leaf(Pane {
                    buffer_index: new_buffer_index,
                    viewport_offset: 0,
                    horizontal_offset: 0,
                    cursor_x: 0,
                    cursor_y: 0,
                    x: (p.x + half) as u16,
                    y: p.y,
                    width: (p.width - half) as u16,
                    height: p.height,
                })),
            }
        },
    }
}

fn split_pane(p: Pane, direction: SplitDirection, new_buffer_index: usize) -> (n: SplitNode)
    requires
        p.fits(),
    ensures
        n == split_leaf(p, direction, new_buffer_index),
{
    match direction {
        SplitDirection::Horizontal => {
            let half = p.height / 2;
            let first = Pane::new(p.buffer_index, p.x, p.y, p.width, half);
            let second = Pane::new(new_buffer_index, p.x, p.y + half, p.width, p.height - half);
            SplitNode::Split {
                direction,
                ratio: HALF_RATIO,
                first: Box::new(SplitNode::Leaf(first)),
                second: Box::new(SplitNode::Leaf(second)),
            }
        },
        SplitDirection::Vertical => {
            let half = p.width / 2;
            let first = Pane::new(p.buffer_index, p.x, p.y, half, p.height);
            let second = Pane::new(new_buffer_index, p.x + half, p.y, p.width - half, p.height);
            SplitNode::Split {
                direction,
                ratio: HALF_RATIO,
                first: Box::new(SplitNode::Leaf(first)),
                second: Box::new(SplitNode::Leaf(second)),
            }
        },
    }
}

/// The rectangle a tree covers, read from its panes.
pub open spec fn bounds(n: SplitNode) -> (int, int, int, int)
    decreases n,
{
    match n {
        SplitNode::Leaf(p) => (p.x as int, p.y as int, p.width as int, p.height as int),
        SplitNode::Split { direction, first, second, .. } => {
            let a = bounds(*first);
            let b = bounds(*second);
            match direction {
                SplitDirection::Horizontal => (a.0, a.1, a.2, a.3 + b.3),
                SplitDirection::Vertical => (a.0, a.1, a.2 + b.2, a.3),
            }
        },
    }
}

/// Rectangle `r` lies in the screen's coordinate space.
pub open spec fn on_screen(r: (int, int, int, int)) -> bool {
    0 <= r.0 && 0 <= r.1 && 0 <= r.2 && 0 <= r.3 && r.0 + r.2 <= u16::MAX && r.1 + r.3 <= u16::MAX
}

proof fn lemma_share(len: int, ratio: int)
    requires
        0 <= len,
        0 < ratio < 1000,
    ensures
        0 <= share(len, ratio) <= len,
{
    assert(len * ratio <= len * 1000) by (nonlinear_arith)
        requires 0 <= len, ratio < 1000;
    assert(0 <= len * ratio) by (nonlinear_arith)
        requires 0 <= len, 0 < ratio;
}

proof fn lemma_half(len: int)
    requires
        0 <= len,
    ensures
        share(len, 500) == len / 2,
{
    assert(len * 500 / 1000 == len / 2) by (nonlinear_arith)
        requires 0 <= len;
}

/// The two parts of a split rectangle cover it, and no point lies in both.
pub proof fn lemma_split_partitions(direction: SplitDirection, ratio: int, x: int, y: int, w: int, h: int, px: int, py: int)
    requires
        0 < ratio < 1000,
        0 <= w,
        0 <= h,
    ensures
        ({
            let (r1, r2) = split_rects(direction, ratio, x, y, w, h);
            &&& contains((x, y, w, h), px, py) <==> (contains(r1, px, py) || contains(r2, px, py))
            &&& !(contains(r1, px, py) && contains(r2, px, py))
        }),
{
    lemma_share(w, ratio);
    lemma_share(h, ratio);
}

/// A tree covers exactly the rectangle it tiles.
pub proof fn lemma_tiles_bounds(n: SplitNode, x: int, y: int, w: int, h: int)
    requires
        n.tiles(x, y, w, h),
    ensures
        bounds(n) == (x, y, w, h),
    decreases n,
{
    match n {
        SplitNode::Leaf(p) => {},
        SplitNode::Split { direction, ratio, first, second } => {
            let (r1, r2) = split_rects(direction, ratio as int, x, y, w, h);
            lemma_tiles_bounds(*first, r1.0, r1.1, r1.2, r1.3);
            lemma_tiles_bounds(*second, r2.0, r2.1, r2.2, r2.3);
        },
    }
}

/// Laying a tree out on a rectangle makes it tile that rectangle, with
/// the same panes but for their rectangles.
pub proof fn lemma_laid_out(n: SplitNode, x: u16, y: u16, w: u16, h: u16)
    requires
        n.ratios_ok(),
        x + w <= u16::MAX,
        y + h <= u16::MAX,
    ensures
        n.laid_out(x, y, w, h).tiles(x as int, y as int, w as int, h as int),
        n.laid_out(x, y, w, h).ratios_ok(),
        n.laid_out(x, y, w, h).panes().len() == n.panes().len(),
        forall|i: int| 0 <= i < n.panes().len() ==> (#[trigger] n.laid_out(x, y, w, h).panes()[i]).buffer_index == n.panes()[i].buffer_index,
    decreases n,
{
    match n {
        SplitNode::Leaf(p) => {},
        SplitNode::Split { direction, ratio, first, second } => {
            let (r1, r2) = split_rects(direction, ratio as int, x as int, y as int, w as int, h as int);
            lemma_share(w as int, ratio as int);
            lemma_share(h as int, ratio as int);
            lemma_laid_out(*first, r1.0 as u16, r1.1 as u16, r1.2 as u16, r1.3 as u16);
            lemma_laid_out(*second, r2.0 as u16, r2.1 as u16, r2.2 as u16, r2.3 as u16);
            let l = n.laid_out(x, y, w, h);
            let f1 = first.panes().len();
            assert forall|i: int| 0 <= i < n.panes().len() implies (#[trigger] l.panes()[i]).buffer_index == n.panes()[i].buffer_index by {
                if i < f1 {
                    assert(l.panes()[i] == first.laid_out(r1.0 as u16, r1.1 as u16, r1.2 as u16, r1.3 as u16).panes()[i]);
                } else {
                    assert(l.panes()[i] == second.laid_out(r2.0 as u16, r2.1 as u16, r2.2 as u16, r2.3 as u16).panes()[i - f1]);
                }
            }
        },
    }
}

/// Splitting a pane of a tree that tiles a rectangle on the screen keeps
/// it tiling that rectangle, and adds one pane after the split one.
pub proof fn lemma_split_at(n: SplitNode, i: int, direction: SplitDirection, nb: usize, x: int, y: int, w: int, h: int)
    requires
        n.tiles(x, y, w, h),
        n.ratios_ok(),
        on_screen((x, y, w, h)),
        0 <= i < n.panes().len(),
    ensures
        n.split_at(i, direction, nb).tiles(x, y, w, h),
        n.split_at(i, direction, nb).ratios_ok(),
        n.split_at(i, direction, nb).panes().len() == n.panes().len() + 1,
        n.split_at(i, direction, nb).panes()[i].buffer_index == n.panes()[i].buffer_index,
    decreases n,
{
    match n {
        SplitNode::Leaf(p) => {
            lemma_half(h);
            lemma_half(w);
            let s = split_leaf(p, direction, nb);
            assert(n.split_at(i, direction, nb) == s);
            match s {
                SplitNode::Split { direction: d2, ratio, first, second } => {
                    let (r1, r2) = split_rects(d2, ratio as int, x, y, w, h);
                    assert(first.tiles(r1.0, r1.1, r1.2, r1.3));
                    assert(second.tiles(r2.0, r2.1, r2.2, r2.3));
                    assert(first.ratios_ok() && second.ratios_ok());
                    assert(first.panes() == seq![first->Leaf_0]);
                    assert(second.panes() == seq![second->Leaf_0]);
                    assert(s.panes() =~= seq![first->Leaf_0, second->Leaf_0]);
                },
                _ => {},
            }
        },
        SplitNode::Split { direction: d, ratio, first, second } => {
            let (r1, r2) = split_rects(d, ratio as int, x, y, w, h);
            lemma_share(w, ratio as int);
            lemma_share(h, ratio as int);
            let f1 = first.panes().len();
            if i < f1 {
                lemma_split_at(*first, i, direction, nb, r1.0, r1.1, r1.2, r1.3);
            } else {
                lemma_split_at(*second, i - f1, direction, nb, r2.0, r2.1, r2.2, r2.3);
            }
        },
    }
}

/// Every pane of a tree that tiles a rectangle on the screen lies on the
/// screen.
pub proof fn lemma_panes_fit(n: SplitNode, x: int, y: int, w: int, h: int)
    requires
        n.tiles(x, y, w, h),
        n.ratios_ok(),
        on_screen((x, y, w, h)),
    ensures
        forall|i: int| 0 <= i < n.panes().len() ==> (#[trigger] n.panes()[i]).fits(),
    decreases n,
{
    match n {
        SplitNode::Leaf(p) => {},
        SplitNode::Split { direction: d, ratio, first, second } => {
            let (r1, r2) = split_rects(d, ratio as int, x, y, w, h);
            lemma_share(w, ratio as int);
            lemma_share(h, ratio as int);
            lemma_panes_fit(*first, r1.0, r1.1, r1.2, r1.3);
            lemma_panes_fit(*second, r2.0, r2.1, r2.2, r2.3);
            let f1 = first.panes().len();
            assert forall|i: int| 0 <= i < n.panes().len() implies (#[trigger] n.panes()[i]).fits() by {
                if i < f1 {
                    assert(n.panes()[i] == first.panes()[i]);
                } else {
                    assert(n.panes()[i] == second.panes()[i - f1]);
                }
            }
        },
    }
}

impl SplitNode {
    /// Copies of the panes in depth-first, left-to-right order.
    pub fn get_all_panes(&self) -> (v: Vec<Pane>)
        ensures
            v@ == self.panes(),
        decreases self,
    {
        match self {
            SplitNode::Leaf(p) => {
                let mut v = Vec::new();
                v.push(*p);
                proof {
                    assert(v@ =~= seq![*p]);
                }
                v
            },
            SplitNode::Split { first, second, .. } => {
                let mut v = first.get_all_panes();
                let mut w = second.get_all_panes();
                v.append(&mut w);
                v
            },
        }
    }

    /// Copies of the panes in depth-first, left-to-right order.
    pub fn get_all_panes_immutable(&self) -> (v: Vec<Pane>)
        ensures
            v@ == self.panes(),
    {
        self.get_all_panes()
    }

    /// Index, in depth-first order, of the first pane whose rectangle holds
    /// `(target_x, target_y)`.
    pub fn find_pane_at(&self, target_x: u16, target_y: u16) -> (r: Option<usize>)
        ensures
            r == first_pane_at(self.panes(), target_x as int, target_y as int, 0),
    {
        let panes = self.get_all_panes();
        pane_index_at(&panes, target_x, target_y)
    }

    /// Splits the `index`-th pane in depth-first order.
    fn split_index(&mut self, index: usize, direction: SplitDirection, new_buffer_index: usize)
        requires
            index < old(self).panes().len(),
            forall|i: int| 0 <= i < old(self).panes().len() ==> (#[trigger] old(self).panes()[i]).fits(),
        ensures
            *final(self) == old(self).split_at(index as int, direction, new_buffer_index),
        decreases *old(self),
    {
        match self {
            SplitNode::Leaf(pane) => {
                let p = *pane;
                proof {
                    assert(old(self).panes()[0] == p);
                }
                *self = split_pane(p, direction, new_buffer_index);
            },
            SplitNode::Split { first, second, .. } => {
                let n = first.get_all_panes().len();
                proof {
                    assert forall|i: int| 0 <= i < first.panes().len() implies (#[trigger] first.panes()[i]).fits() by {
                        assert(old(self).panes()[i] == first.panes()[i]);
                    }
                    assert forall|i: int| 0 <= i < second.panes().len() implies (#[trigger] second.panes()[i]).fits() by {
                        assert(old(self).panes()[i + n] == second.panes()[i]);
                    }
                }
                if index < n {
                    (&mut **first).split_index(index, direction, new_buffer_index);
                } else {
                    (&mut **second).split_index(index - n, direction, new_buffer_index);
                }
            },
        }
    }
}

/// Index of the first pane from `i` on whose rectangle holds `(x, y)`.
pub open spec fn first_pane_at(panes: Seq<Pane>, x: int, y: int, i: int) -> Option<usize>
    decreases panes.len() - i,
{
    if i < 0 || i >= panes.len() {
        None
    } else if contains((panes[i].x as int, panes[i].y as int, panes[i].width as int, panes[i].height as int), x, y) {
        Some(i as usize)
    } else {
        first_pane_at(panes, x, y, i + 1)
    }
}

fn pane_index_at(panes: &Vec<Pane>, x: u16, y: u16) -> (r: Option<usize>)
    ensures
        r == first_pane_at(panes@, x as int, y as int, 0),
{
    let mut i: usize = 0;
    while i < panes.len()
        invariant
            i <= panes@.len(),
            first_pane_at(panes@, x as int, y as int, 0) == first_pane_at(panes@, x as int, y as int, i as int),
        decreases panes@.len() - i,
    {
        let p = panes[i];
        if x >= p.x && x - p.x < p.width && y >= p.y && y - p.y < p.height {
            return Some(i);
        }
        i = i + 1;
    }
    None
}

/// The layout: a tree of panes, and which of them is active by its index
/// in depth-first order.
pub struct SplitManager {
    pub root: SplitNode,
    pub active_pane_index: usize,
}

impl SplitManager {
    /// The tree tiles the rectangle it covers, which lies on the screen,
    /// and every split's ratio is a proper fraction.
    pub open spec fn wf(&self) -> bool {
        let b = bounds(self.root);
        &&& self.root.ratios_ok()
        &&& on_screen(b)
        &&& self.root.tiles(b.0, b.1, b.2, b.3)
    }

    /// One pane for `buffer_index`, right of a sidebar `sidebar_width`
    /// columns wide.
    pub fn new(buffer_index: usize, width: u16, height: u16, sidebar_width: u16) -> (m: SplitManager)
        requires
            sidebar_width <= width,
        ensures
            m.root == SplitNode::Leaf(
                Pane {
                    buffer_index,
                    viewport_offset: 0,
                    horizontal_offset: 0,
                    cursor_x: 0,
                    cursor_y: 0,
                    x: sidebar_width,
                    y: 0,
                    width: (width - sidebar_width) as u16,
                    height,
                },
            ),
            m.active_pane_index == 0,
            m.wf(),
    {
        let pane = Pane::new(buffer_index, sidebar_width, 0, width - sidebar_width, height);
        SplitManager { root: SplitNode::new_leaf(pane), active_pane_index: 0 }
    }

    /// Splits the active pane in two along `direction`; the second half
    /// shows `new_buffer_index`, the active pane stays the first half.
    /// False when the active index names no pane.
    pub fn split_current(&mut self, direction: SplitDirection, new_buffer_index: usize) -> (r: bool)
        requires
            old(self).wf(),
        ensures
            r == (old(self).active_pane_index < old(self).root.panes().len()),
            r ==> final(self).root == old(self).root.split_at(old(self).active_pane_index as int, direction, new_buffer_index),
            !r ==> final(self).root == old(self).root,
            final(self).active_pane_index == old(self).active_pane_index,
            bounds(final(self).root) == bounds(old(self).root),
            final(self).wf(),
    {
        let count = self.root.get_all_panes().len();
        if self.active_pane_index < count {
            let ghost b = bounds(self.root);
            proof {
                lemma_panes_fit(self.root, b.0, b.1, b.2, b.3);
                lemma_split_at(self.root, self.active_pane_index as int, direction, new_buffer_index, b.0, b.1, b.2, b.3);
            }
            self.root.split_index(self.active_pane_index, direction, new_buffer_index);
            proof {
                lemma_tiles_bounds(self.root, b.0, b.1, b.2, b.3);
            }
            true
        } else {
            false
        }
    }

    /// A copy of the active pane.
    pub fn get_active_pane(&self) -> (r: Option<Pane>)
        ensures
            r == if self.active_pane_index < self.root.panes().len() {
                Some(self.root.panes()[self.active_pane_index as int])
            } else {
                None
            },
    {
        let panes = self.root.get_all_panes();
        if self.active_pane_index < panes.len() {
            Some(panes[self.active_pane_index])
        } else {
            None
        }
    }

    /// The buffer the active pane shows.
    pub fn get_active_buffer_index(&self) -> (r: Option<usize>)
        ensures
            r == if self.active_pane_index < self.root.panes().len() {
                Some(self.root.panes()[self.active_pane_index as int].buffer_index)
            } else {
                None
            },
    {
        let panes = self.root.get_all_panes_immutable();
        if self.active_pane_index < panes.len() {
            Some(panes[self.active_pane_index].buffer_index)
        } else {
            None
        }
    }

    /// Makes the next pane active, the first after the last.
    pub fn next_pane(&mut self)
        ensures
            final(self).active_pane_index == (old(self).active_pane_index + 1) % (old(self).root.panes().len() as int),
            final(self).root == old(self).root,
    {
        let count = self.count_panes();
        proof {
            lemma_has_pane(self.root);
            lemma_next_mod(old(self).active_pane_index as int, count as int);
        }
        self.active_pane_index = (self.active_pane_index % count + 1) % count;
    }

    /// Makes the previous pane active, the last before the first.
    pub fn previous_pane(&mut self)
        ensures
            final(self).active_pane_index == (if old(self).active_pane_index == 0 {
                old(self).root.panes().len() - 1
            } else {
                old(self).active_pane_index - 1
            }),
            final(self).root == old(self).root,
    {
        let count = self.count_panes();
        proof {
            lemma_has_pane(self.root);
        }
        if self.active_pane_index == 0 {
            self.active_pane_index = count - 1;
        } else {
            self.active_pane_index = self.active_pane_index - 1;
        }
    }

    /// Lays the panes out on `(x, y, width, height)`.
    pub fn resize(&mut self, x: u16, y: u16, width: u16, height: u16)
        requires
            old(self).wf(),
            x + width <= u16::MAX,
            y + height <= u16::MAX,
        ensures
            final(self).root == old(self).root.laid_out(x, y, width, height),
            final(self).root.tiles(x as int, y as int, width as int, height as int),
            final(self).active_pane_index == old(self).active_pane_index,
            final(self).wf(),
    {
        proof {
            lemma_laid_out(self.root, x, y, width, height);
            lemma_tiles_bounds(self.root.laid_out(x, y, width, height), x as int, y as int, width as int, height as int);
        }
        self.root.resize(x, y, width, height);
    }

    pub fn count_panes(&self) -> (n: usize)
        ensures
            n == self.root.panes().len(),
    {
        self.root.get_all_panes().len()
    }

    pub fn get_pane_count(&self) -> (n: usize)
        ensures
            n == self.root.panes().len(),
    {
        self.root.get_all_panes_immutable().len()
    }

    /// Makes active the pane under `(x, y)`; false when there is none.
    pub fn handle_click(&mut self, x: u16, y: u16) -> (r: bool)
        ensures
            r == first_pane_at(old(self).root.panes(), x as int, y as int, 0).is_some(),
            r ==> final(self).active_pane_index == first_pane_at(old(self).root.panes(), x as int, y as int, 0).unwrap(),
            !r ==> final(self).active_pane_index == old(self).active_pane_index,
            final(self).root == old(self).root,
    {
        match self.root.find_pane_at(x, y) {
            Some(i) => {
                self.active_pane_index = i;
                true
            },
            None => false,
        }
    }
}

/// A tree has at least one pane.
pub proof fn lemma_has_pane(n: SplitNode)
    ensures
        n.panes().len() >= 1,
    decreases n,
{
    match n {
        SplitNode::Leaf(p) => {},
        SplitNode::Split { first, second, .. } => {
            lemma_has_pane(*first);
        },
    }
}

proof fn lemma_next_mod(a: int, n: int)
    requires
        n > 0,
        a >= 0,
    ensures
        (a % n + 1) % n == (a + 1) % n,
{
    assert((a % n + 1) % n == (a + 1) % n) by (nonlinear_arith)
        requires n > 0;
}

} // verus!
