use vstd::prelude::*;

verus! {

/// A point on the pixel grid, in image coordinates.
#[derive(Debug, Clone, Copy, PartialEq, Eq, Structural, PartialOrd, Ord, Hash)]
pub struct Point {
    pub x: usize,
    pub y: usize,
}

/// An axis-aligned half-open rectangle: it spans `[top_left, bottom_right)`.
#[derive(Debug, Clone, Copy, PartialEq, Eq, Structural)]
pub struct Rectangle {
    pub top_left: Point,
    pub bottom_right: Point,
}

impl Rectangle {
    /// Number of pixel columns covered by the rectangle.
    pub open spec fn width_spec(self) -> int {
        self.bottom_right.x - self.top_left.x
    }

    /// Number of pixel rows covered by the rectangle.
    pub open spec fn height_spec(self) -> int {
        self.bottom_right.y - self.top_left.y
    }

    /// Number of pixels covered by the rectangle.
    pub open spec fn area_spec(self) -> int {
        self.width_spec() * self.height_spec()
    }

    /// A rectangle kept as a subdivision candidate covers at least one pixel.
    pub open spec fn non_degenerate(self) -> bool {
        self.top_left.x < self.bottom_right.x && self.top_left.y < self.bottom_right.y
    }

    /// Whether the pixel at `(x, y)` lies inside the half-open region.
    pub open spec fn contains(self, x: int, y: int) -> bool {
        self.top_left.x <= x < self.bottom_right.x && self.top_left.y <= y < self.bottom_right.y
    }

    /// Horizontal midpoint (floor of the mean of the two x bounds).
    pub open spec fn x_mid_spec(self) -> int {
        (self.top_left.x + self.bottom_right.x) / 2
    }

    /// Vertical midpoint (floor of the mean of the two y bounds).
    pub open spec fn y_mid_spec(self) -> int {
        (self.top_left.y + self.bottom_right.y) / 2
    }

    /// Top-left midpoint child.
    pub open spec fn child_tl(self) -> Rectangle {
        Rectangle {
            top_left: self.top_left,
            bottom_right: Point { x: self.x_mid_spec() as usize, y: self.y_mid_spec() as usize },
        }
    }

    /// Bottom-left midpoint child.
    pub open spec fn child_bl(self) -> Rectangle {
        Rectangle {
            top_left: Point { x: self.top_left.x, y: self.y_mid_spec() as usize },
            bottom_right: Point { x: self.x_mid_spec() as usize, y: self.bottom_right.y },
        }
    }

    /// Top-right midpoint child.
    pub open spec fn child_tr(self) -> Rectangle {
        Rectangle {
            top_left: Point { x: self.x_mid_spec() as usize, y: self.top_left.y },
            bottom_right: Point { x: self.bottom_right.x, y: self.y_mid_spec() as usize },
        }
    }

    /// Bottom-right midpoint child.
    pub open spec fn child_br(self) -> Rectangle {
        Rectangle {
            top_left: Point { x: self.x_mid_spec() as usize, y: self.y_mid_spec() as usize },
            bottom_right: self.bottom_right,
        }
    }

    /// What `split` returns: the four midpoint children for a rectangle at
    /// least two pixels wide and two pixels tall, nothing otherwise.  A child
    /// of a narrower rectangle would keep the parent's width or height, so it
    /// is never produced: a one-pixel-wide or one-pixel-tall rectangle is a
    /// terminal leaf.
    pub open spec fn split_spec(self) -> Seq<Rectangle> {
        if self.width_spec() >= 2 && self.height_spec() >= 2 {
            seq![self.child_tl(), self.child_bl(), self.child_tr(), self.child_br()]
        } else {
            Seq::<Rectangle>::empty()
        }
    }

    /// Width as a machine integer.
    pub fn width(&self) -> (w: u32)
        requires
            self.top_left.x <= self.bottom_right.x,
            self.width_spec() <= u32::MAX,
        ensures
            w == self.width_spec(),
    {
        (self.bottom_right.x - self.top_left.x) as u32
    }

    /// Height as a machine integer.
    pub fn height(&self) -> (h: u32)
        requires
            self.top_left.y <= self.bottom_right.y,
            self.height_spec() <= u32::MAX,
        ensures
            h == self.height_spec(),
    {
        (self.bottom_right.y - self.top_left.y) as u32
    }

    /// Pixel count as a machine integer.
    pub fn area(&self) -> (a: u64)
        requires
            self.top_left.x <= self.bottom_right.x,
            self.top_left.y <= self.bottom_right.y,
            self.width_spec() <= u32::MAX,
            self.height_spec() <= u32::MAX,
        ensures
            a == self.area_spec(),
    {
        let w = self.width();
        let h = self.height();
        proof {
            assert((w as int) * (h as int) <= u32::MAX * u32::MAX) by (nonlinear_arith)
                requires
                    0 <= (w as int) <= u32::MAX,
                    0 <= (h as int) <= u32::MAX,
            ;
        }
        (w as u64) * (h as u64)
    }

    /// Divide the rectangle at the integer midpoint of each axis and return
    /// the children that are strictly smaller than the parent in both
    /// dimensions, in the order top-left, bottom-left, top-right,
    /// bottom-right.  A rectangle with width or height below two yields no
    /// children at all.
    pub fn split(&self) -> (children: Vec<Rectangle>)
        requires
            self.top_left.x <= self.bottom_right.x,
            self.top_left.y <= self.bottom_right.y,
            self.top_left.x + self.bottom_right.x <= usize::MAX,
            self.top_left.y + self.bottom_right.y <= usize::MAX,
        ensures
            children@ == self.split_spec(),
    {
        let x_min = self.top_left.x;
        let y_min = self.top_left.y;
        let x_max = self.bottom_right.x;
        let y_max = self.bottom_right.y;
        let x_mid = (x_min + x_max) / 2;
        let y_mid = (y_min + y_max) / 2;
        let mut children: Vec<Rectangle> = Vec::new();
        if x_max - x_min >= 2 && y_max - y_min >= 2 {
            children.push(Rectangle {
                top_left: Point { x: x_min, y: y_min },
                bottom_right: Point { x: x_mid, y: y_mid },
            });
            children.push(Rectangle {
                top_left: Point { x: x_min, y: y_mid },
                bottom_right: Point { x: x_mid, y: y_max },
            });
            children.push(Rectangle {
                top_left: Point { x: x_mid, y: y_min },
                bottom_right: Point { x: x_max, y: y_mid },
            });
            children.push(Rectangle {
                top_left: Point { x: x_mid, y: y_mid },
                bottom_right: Point { x: x_max, y: y_max },
            });
        }
        proof {
            assert(children@ =~= self.split_spec());
        }
        children
    }

    /// The midpoints of a rectangle at least two pixels wide and tall lie
    /// strictly between its bounds.
    pub proof fn lemma_mid_bounds(self)
        requires
            self.width_spec() >= 2,
            self.height_spec() >= 2,
        ensures
            self.top_left.x < self.x_mid_spec() < self.bottom_right.x,
            self.top_left.y < self.y_mid_spec() < self.bottom_right.y,
    {
        let ax = self.top_left.x as int;
        let bx = self.bottom_right.x as int;
        let ay = self.top_left.y as int;
        let by = self.bottom_right.y as int;
        assert(ax < (ax + bx) / 2 < bx) by (nonlinear_arith)
            requires ax + 2 <= bx, 0 <= ax,
        ;
        assert(ay < (ay + by) / 2 < by) by (nonlinear_arith)
            requires ay + 2 <= by, 0 <= ay,
        ;
    }

    /// A one-pixel-wide or one-pixel-tall rectangle is a terminal leaf:
    /// its split has no children.
    pub proof fn lemma_unit_split_empty(self)
        requires
            self.width_spec() == 1 || self.height_spec() == 1,
        ensures
            self.split_spec().len() == 0,
    {
    }

    /// The split of a non-degenerate rectangle has zero or four children;
    /// when there are four, each is non-degenerate, lies inside the parent,
    /// is strictly smaller than the parent in both dimensions, and together
    /// they cover the parent exactly, without overlap.
    pub proof fn lemma_split_properties(self)
        requires
            self.non_degenerate(),
        ensures
            self.split_spec().len() == 0 || self.split_spec().len() == 4,
            self.width_spec() == 1 || self.height_spec() == 1 ==> self.split_spec().len() == 0,
            self.split_spec().len() == 4 ==> {
                let c = self.split_spec();
                &&& forall|i: int| 0 <= i < 4 ==> (#[trigger] c[i]).non_degenerate()
                &&& forall|i: int|
                    0 <= i < 4 ==> (#[trigger] c[i]).top_left.x >= self.top_left.x
                        && c[i].top_left.y >= self.top_left.y
                        && c[i].bottom_right.x <= self.bottom_right.x
                        && c[i].bottom_right.y <= self.bottom_right.y
                &&& forall|i: int|
                    0 <= i < 4 ==> (#[trigger] c[i]).width_spec() < self.width_spec()
                        && c[i].height_spec() < self.height_spec()
                &&& forall|x: int, y: int|
                    #[trigger] self.contains(x, y) <==> (c[0].contains(x, y)
                        || c[1].contains(x, y) || c[2].contains(x, y) || c[3].contains(x, y))
                &&& forall|i: int, j: int, x: int, y: int|
                    #![trigger c[i].contains(x, y), c[j].contains(x, y)]
                    0 <= i < 4 && 0 <= j < 4 && i != j ==> !(c[i].contains(x, y) && c[j].contains(
                        x,
                        y,
                    ))
            },
    {
        if self.width_spec() >= 2 && self.height_spec() >= 2 {
            self.lemma_mid_bounds();
            let c = self.split_spec();
            assert(c[0] == self.child_tl());
            assert(c[1] == self.child_bl());
            assert(c[2] == self.child_tr());
            assert(c[3] == self.child_br());
        }
    }

    /// The areas of the children of a split sum to at most the parent's
    /// area, and exactly to it when there are four children.
    pub proof fn lemma_split_area(self)
        requires
            self.non_degenerate(),
        ensures
            self.area_spec() >= 1,
            rects_area_sum(self.split_spec()) <= self.area_spec(),
            self.split_spec().len() == 4 ==> rects_area_sum(self.split_spec()) == self.area_spec(),
    {
        let w = self.width_spec();
        let h = self.height_spec();
        assert(w * h >= 1) by (nonlinear_arith)
            requires w >= 1, h >= 1,
        ;
        if self.width_spec() >= 2 && self.height_spec() >= 2 {
            self.lemma_mid_bounds();
            let c = self.split_spec();
            let x0 = self.top_left.x as int;
            let y0 = self.top_left.y as int;
            let x1 = self.bottom_right.x as int;
            let y1 = self.bottom_right.y as int;
            let xm = self.x_mid_spec();
            let ym = self.y_mid_spec();
            let s1 = seq![self.child_tl()];
            let s2 = seq![self.child_tl(), self.child_bl()];
            let s3 = seq![self.child_tl(), self.child_bl(), self.child_tr()];
            assert(s1.drop_last() =~= Seq::<Rectangle>::empty());
            assert(s2.drop_last() =~= s1);
            assert(s3.drop_last() =~= s2);
            assert(c.drop_last() =~= s3);
            assert(rects_area_sum(Seq::<Rectangle>::empty()) == 0);
            assert(rects_area_sum(s1) == self.child_tl().area_spec());
            assert(rects_area_sum(s2) == rects_area_sum(s1) + self.child_bl().area_spec());
            assert(rects_area_sum(s3) == rects_area_sum(s2) + self.child_tr().area_spec());
            assert(rects_area_sum(c) == rects_area_sum(s3) + self.child_br().area_spec());
            assert((xm - x0) * (ym - y0) + (xm - x0) * (y1 - ym) + (x1 - xm) * (ym - y0) + (x1
                - xm) * (y1 - ym) == (x1 - x0) * (y1 - y0)) by (nonlinear_arith);
        }
    }
}

/// Total pixel count of a sequence of rectangles.
pub open spec fn rects_area_sum(s: Seq<Rectangle>) -> int
    decreases s.len(),
{
    if s.len() == 0 {
        0
    } else {
        rects_area_sum(s.drop_last()) + s.last().area_spec()
    }
}

/// Dropping a suffix of rectangles with non-negative areas cannot increase
/// the total area.
pub proof fn lemma_rects_area_prefix(s: Seq<Rectangle>, k: int)
    requires
        0 <= k <= s.len(),
        forall|i: int| 0 <= i < s.len() ==> (#[trigger] s[i]).area_spec() >= 0,
    ensures
        rects_area_sum(s.subrange(0, k)) <= rects_area_sum(s),
    decreases s.len(),
{
    if k == s.len() {
        assert(s.subrange(0, k) =~= s);
    } else {
        let d = s.drop_last();
        assert(s.subrange(0, k) =~= d.subrange(0, k));
        lemma_rects_area_prefix(d, k);
    }
}

/// Extending a prefix by one rectangle adds exactly that rectangle's area.
pub proof fn lemma_rects_area_prefix_step(s: Seq<Rectangle>, k: int)
    requires
        0 <= k < s.len(),
    ensures
        rects_area_sum(s.subrange(0, k + 1)) == rects_area_sum(s.subrange(0, k)) + s[k].area_spec(),
{
    let p = s.subrange(0, k + 1);
    assert(p.drop_last() =~= s.subrange(0, k));
    assert(p.last() == s[k]);
}

} // verus!
