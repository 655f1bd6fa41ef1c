//! Screen-space geometry for the framebuffer drawing routines: points and
//! axis-aligned rectangles.
//!
//! Only the coordinate arithmetic lives here; putting pixels on the screen
//! is the embedding's business.

use vstd::prelude::*;

verus! {

/// A point in screen space.
#[derive(Clone, Copy, Debug, PartialEq, Eq, Structural)]
pub struct Point {
    /// Horizontal coordinate, growing rightwards.
    pub x: i32,
    /// Vertical coordinate, growing downwards.
    pub y: i32,
}

impl Point {
    /// The point `n` pixels to the left.
    pub fn left(&self, n: i32) -> (r: Point)
        requires
            i32::MIN <= self.x - n <= i32::MAX,
        ensures
            r.x == self.x - n,
            r.y == self.y,
    {
        Point { x: self.x - n, y: self.y }
    }

    /// The point `n` pixels up.
    pub fn up(&self, n: i32) -> (r: Point)
        requires
            i32::MIN <= self.y - n <= i32::MAX,
        ensures
            r.x == self.x,
            r.y == self.y - n,
    {
        Point { x: self.x, y: self.y - n }
    }

    /// The point `n` pixels to the right.
    pub fn right(&self, n: i32) -> (r: Point)
        requires
            i32::MIN <= self.x + n <= i32::MAX,
        ensures
            r.x == self.x + n,
            r.y == self.y,
    {
        Point { x: self.x + n, y: self.y }
    }

    /// The point `n` pixels down.
    pub fn down(&self, n: i32) -> (r: Point)
        requires
            i32::MIN <= self.y + n <= i32::MAX,
        ensures
            r.x == self.x,
            r.y == self.y + n,
    {
        Point { x: self.x, y: self.y + n }
    }
}

/// An axis-aligned rectangle: top-left corner, width and height.
#[derive(Clone, Copy, Debug, PartialEq, Eq, Structural)]
pub struct Rect {
    /// Horizontal coordinate of the left edge.
    pub x: i32,
    /// Vertical coordinate of the top edge.
    pub y: i32,
    /// Width in pixels.
    pub w: u32,
    /// Height in pixels.
    pub h: u32,
}

impl Rect {
    /// Builds the rectangle spanned by two corners given as left, top,
    /// right, bottom coordinates, in either order.
    pub fn from_ltrb(l: i32, t: i32, r: i32, b: i32) -> (rect: Rect)
        requires
            r - l <= i32::MAX,
            l - r <= i32::MAX,
            b - t <= i32::MAX,
            t - b <= i32::MAX,
        ensures
            rect.x == if l > r {
                r
            } else {
                l
            },
            rect.y == if t > b {
                b
            } else {
                t
            },
            rect.w == if r >= l {
                r - l
            } else {
                l - r
            },
            rect.h == if b >= t {
                b - t
            } else {
                t - b
            },
    {
        let w: u32 = if r >= l {
            (r - l) as u32
        } else {
            (l - r) as u32
        };
        let h: u32 = if b >= t {
            (b - t) as u32
        } else {
            (t - b) as u32
        };
        Rect {
            x: if l > r {
                r
            } else {
                l
            },
            y: if t > b {
                b
            } else {
                t
            },
            w,
            h,
        }
    }

    /// The rectangle's left, top, right and bottom coordinates.
    pub fn ltrb(&self) -> (r: (i32, i32, i32, i32))
        requires
            self.w <= i32::MAX,
            self.h <= i32::MAX,
            self.x + self.w <= i32::MAX,
            self.y + self.h <= i32::MAX,
        ensures
            r.0 == self.x,
            r.1 == self.y,
            r.2 == self.x + self.w,
            r.3 == self.y + self.h,
    {
        (self.x, self.y, self.x + self.w as i32, self.y + self.h as i32)
    }

    /// The top-left corner.
    pub fn tl(&self) -> (r: Point)
        ensures
            r.x == self.x,
            r.y == self.y,
    {
        Point { x: self.x, y: self.y }
    }

    /// The top-right corner.
    pub fn tr(&self) -> (r: Point)
        requires
            self.w <= i32::MAX,
            self.x + self.w <= i32::MAX,
        ensures
            r.x == self.x + self.w,
            r.y == self.y,
    {
        Point { x: self.x + self.w as i32, y: self.y }
    }

    /// The bottom-left corner.
    pub fn bl(&self) -> (r: Point)
        requires
            self.h <= i32::MAX,
            self.y + self.h <= i32::MAX,
        ensures
            r.x == self.x,
            r.y == self.y + self.h,
    {
        Point { x: self.x, y: self.y + self.h as i32 }
    }

    /// The bottom-right corner.
    pub fn br(&self) -> (r: Point)
        requires
            self.w <= i32::MAX,
            self.h <= i32::MAX,
            self.x + self.w <= i32::MAX,
            self.y + self.h <= i32::MAX,
        ensures
            r.x == self.x + self.w,
            r.y == self.y + self.h,
    {
        Point { x: self.x + self.w as i32, y: self.y + self.h as i32 }
    }
}

/// A circular arc: centre, radius, and the swept angles in degrees.
#[derive(Clone, Copy, Debug, PartialEq, Eq, Structural)]
pub struct Arc {
    /// Horizontal coordinate of the centre.
    pub cx: i32,
    /// Vertical coordinate of the centre.
    pub cy: i32,
    /// Radius in pixels.
    pub radius: i32,
    /// Angle where the arc starts, in degrees.
    pub start_deg: u32,
    /// Angle where the arc ends, in degrees.
    pub end_deg: u32,
}

/// The rectangle's top-left corner, as a spec value.
pub open spec fn rect_tl(r: Rect) -> Point {
    Point { x: r.x, y: r.y }
}

/// The rectangle's top-right corner, as a spec value.
pub open spec fn rect_tr(r: Rect) -> Point {
    Point { x: (r.x + r.w) as i32, y: r.y }
}

/// The rectangle's bottom-left corner, as a spec value.
pub open spec fn rect_bl(r: Rect) -> Point {
    Point { x: r.x, y: (r.y + r.h) as i32 }
}

/// The rectangle's bottom-right corner, as a spec value.
pub open spec fn rect_br(r: Rect) -> Point {
    Point { x: (r.x + r.w) as i32, y: (r.y + r.h) as i32 }
}

/// The outline of a rectangle: its four edges, walked left side down,
/// bottom, right side up, top — the order the renderer draws them in.
pub fn draw_rect(rect: Rect) -> (segments: Vec<(Point, Point)>)
    requires
        rect.w <= i32::MAX,
        rect.h <= i32::MAX,
        rect.x + rect.w <= i32::MAX,
        rect.y + rect.h <= i32::MAX,
    ensures
        segments@ == seq![
            (rect_tl(rect), rect_bl(rect)),
            (rect_bl(rect), rect_br(rect)),
            (rect_br(rect), rect_tr(rect)),
            (rect_tr(rect), rect_tl(rect)),
        ],
{
    let mut segments: Vec<(Point, Point)> = Vec::new();
    segments.push((rect.tl(), rect.bl()));
    segments.push((rect.bl(), rect.br()));
    segments.push((rect.br(), rect.tr()));
    segments.push((rect.tr(), rect.tl()));
    proof {
        assert(segments@ =~= seq![
            (rect_tl(rect), rect_bl(rect)),
            (rect_bl(rect), rect_br(rect)),
            (rect_br(rect), rect_tr(rect)),
            (rect_tr(rect), rect_tl(rect)),
        ]);
    }
    segments
}

/// The outline of a rectangle with rounded corners: a quarter arc at each
/// corner and the four straight edges inset by the corner radius, in the
/// order the renderer draws them.
pub fn draw_rounded_rect(rect: Rect, radius: i32) -> (outline: (Vec<Arc>, Vec<(Point, Point)>))
    requires
        0 <= radius <= rect.w,
        radius <= rect.h,
        rect.w <= i32::MAX,
        rect.h <= i32::MAX,
        rect.x + rect.w <= i32::MAX,
        rect.y + rect.h <= i32::MAX,
    ensures
        outline.0@ == seq![
            (Arc {
                cx: (rect.x + radius) as i32,
                cy: (rect.y + radius) as i32,
                radius: radius,
                start_deg: 90,
                end_deg: 180,
            }),
            (Arc {
                cx: (rect.x + radius) as i32,
                cy: (rect.y + rect.h - radius) as i32,
                radius: radius,
                start_deg: 180,
                end_deg: 270,
            }),
            (Arc {
                cx: (rect.x + rect.w - radius) as i32,
                cy: (rect.y + rect.h - radius) as i32,
                radius: radius,
                start_deg: 270,
                end_deg: 360,
            }),
            (Arc {
                cx: (rect.x + rect.w - radius) as i32,
                cy: (rect.y + radius) as i32,
                radius: radius,
                start_deg: 0,
                end_deg: 90,
            }),
        ],
        outline.1@ == seq![
            (
                (Point { x: rect.x, y: (rect.y + radius) as i32 }),
                (Point { x: rect.x, y: (rect.y + rect.h - radius) as i32 }),
            ),
            (
                (Point { x: (rect.x + radius) as i32, y: (rect.y + rect.h) as i32 }),
                (Point { x: (rect.x + rect.w - radius) as i32, y: (rect.y + rect.h) as i32 }),
            ),
            (
                (Point { x: (rect.x + rect.w) as i32, y: (rect.y + rect.h - radius) as i32 }),
                (Point { x: (rect.x + rect.w) as i32, y: (rect.y + radius) as i32 }),
            ),
            (
                (Point { x: (rect.x + rect.w - radius) as i32, y: rect.y }),
                (Point { x: (rect.x + radius) as i32, y: rect.y }),
            ),
        ],
{
    let (l, t, r, b) = rect.ltrb();
    let mut arcs: Vec<Arc> = Vec::new();
    arcs.push(Arc { cx: l + radius, cy: t + radius, radius, start_deg: 90, end_deg: 180 });
    arcs.push(Arc { cx: l + radius, cy: b - radius, radius, start_deg: 180, end_deg: 270 });
    arcs.push(Arc { cx: r - radius, cy: b - radius, radius, start_deg: 270, end_deg: 360 });
    arcs.push(Arc { cx: r - radius, cy: t + radius, radius, start_deg: 0, end_deg: 90 });

    let mut segments: Vec<(Point, Point)> = Vec::new();
    segments.push((rect.tl().down(radius), rect.bl().up(radius)));
    segments.push((rect.bl().right(radius), rect.br().left(radius)));
    segments.push((rect.br().up(radius), rect.tr().down(radius)));
    segments.push((rect.tr().left(radius), rect.tl().right(radius)));
    proof {
        assert(arcs@ =~= seq![
            (Arc {
                cx: (rect.x + radius) as i32,
                cy: (rect.y + radius) as i32,
                radius: radius,
                start_deg: 90,
                end_deg: 180,
            }),
            (Arc {
                cx: (rect.x + radius) as i32,
                cy: (rect.y + rect.h - radius) as i32,
                radius: radius,
                start_deg: 180,
                end_deg: 270,
            }),
            (Arc {
                cx: (rect.x + rect.w - radius) as i32,
                cy: (rect.y + rect.h - radius) as i32,
                radius: radius,
                start_deg: 270,
                end_deg: 360,
            }),
            (Arc {
                cx: (rect.x + rect.w - radius) as i32,
                cy: (rect.y + radius) as i32,
                radius: radius,
                start_deg: 0,
                end_deg: 90,
            }),
        ]);
        assert(segments@ =~= seq![
            (
                (Point { x: rect.x, y: (rect.y + radius) as i32 }),
                (Point { x: rect.x, y: (rect.y + rect.h - radius) as i32 }),
            ),
            (
                (Point { x: (rect.x + radius) as i32, y: (rect.y + rect.h) as i32 }),
                (Point { x: (rect.x + rect.w - radius) as i32, y: (rect.y + rect.h) as i32 }),
            ),
            (
                (Point { x: (rect.x + rect.w) as i32, y: (rect.y + rect.h - radius) as i32 }),
                (Point { x: (rect.x + rect.w) as i32, y: (rect.y + radius) as i32 }),
            ),
            (
                (Point { x: (rect.x + rect.w - radius) as i32, y: rect.y }),
                (Point { x: (rect.x + radius) as i32, y: rect.y }),
            ),
        ]);
    }
    (arcs, segments)
}

} // verus!
