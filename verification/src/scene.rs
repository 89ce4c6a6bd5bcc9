//! A chart as a list of primitives in data coordinates.

use crate::chart::{Bounds, DataPoint};
use crate::value::{F32, F64};
use vstd::prelude::*;

verus! {

/// A colour with its opacity.
#[derive(Clone, Copy, Debug, PartialEq, Eq, Structural)]
pub struct Rgba(pub u8, pub u8, pub u8, pub u8);

impl Rgba {
    pub open spec fn opaque(r: u8, g: u8, b: u8) -> Rgba {
        Rgba(r, g, b, 255)
    }

    /// An opaque colour.
    pub fn rgb(r: u8, g: u8, b: u8) -> (c: Rgba)
        ensures
            c == Rgba::opaque(r, g, b),
    {
        Rgba(r, g, b, 255)
    }
}

/// Which end of a text stands at its point.
#[derive(Clone, Copy, Debug, PartialEq, Eq, Structural)]
pub enum Anchor {
    Start,
    Middle,
    End,
}

/// One thing to draw. Positions are in data coordinates, sizes in pixels.
#[derive(Debug)]
pub enum Primitive {
    Polyline { points: Vec<DataPoint>, color: Rgba, width: F32 },
    Circle { center: DataPoint, radius_px: F32, fill: Rgba },
    Rect {
        x0: F64,
        y0: F64,
        x1: F64,
        y1: F64,
        fill: Rgba,
        stroke: Option<(Rgba, F32)>,
    },
    Text {
        at: DataPoint,
        text: String,
        size_px: F32,
        color: Rgba,
        anchor: Anchor,
        offset_px: (F32, F32),
    },
}

#[verifier::ext_equal]
pub ghost enum PrimitiveView {
    Polyline { points: Seq<DataPoint>, color: Rgba, width: F32 },
    Circle { center: DataPoint, radius_px: F32, fill: Rgba },
    Rect {
        x0: F64,
        y0: F64,
        x1: F64,
        y1: F64,
        fill: Rgba,
        stroke: Option<(Rgba, F32)>,
    },
    Text {
        at: DataPoint,
        text: Seq<char>,
        size_px: F32,
        color: Rgba,
        anchor: Anchor,
        offset_px: (F32, F32),
    },
}

impl View for Primitive {
    type V = PrimitiveView;

    open spec fn view(&self) -> PrimitiveView {
        match self {
            Primitive::Polyline { points, color, width } => PrimitiveView::Polyline {
                points: points@,
                color: *color,
                width: *width,
            },
            Primitive::Circle { center, radius_px, fill } => PrimitiveView::Circle {
                center: *center,
                radius_px: *radius_px,
                fill: *fill,
            },
            Primitive::Rect { x0, y0, x1, y1, fill, stroke } => PrimitiveView::Rect {
                x0: *x0,
                y0: *y0,
                x1: *x1,
                y1: *y1,
                fill: *fill,
                stroke: *stroke,
            },
            Primitive::Text { at, text, size_px, color, anchor, offset_px } =>
                PrimitiveView::Text {
                at: *at,
                text: text@,
                size_px: *size_px,
                color: *color,
                anchor: *anchor,
                offset_px: *offset_px,
            },
        }
    }
}

/// What is drawn, from the back to the front, and the ranges that are shown.
#[derive(Debug)]
pub struct Scene {
    pub x: Bounds,
    pub y: Bounds,
    pub primitives: Vec<Primitive>,
}

pub open spec fn primitive_views(v: Seq<Primitive>) -> Seq<PrimitiveView> {
    Seq::new(v.len(), |i: int| v[i]@)
}

impl Scene {
    /// What is drawn, from the back to the front.
    pub open spec fn drawn(self) -> Seq<PrimitiveView> {
        primitive_views(self.primitives@)
    }

    pub fn new(x: Bounds, y: Bounds) -> (s: Scene)
        ensures
            s.x == x,
            s.y == y,
            s.drawn() == Seq::<PrimitiveView>::empty(),
    {
        let s = Scene { x, y, primitives: Vec::new() };
        assert(s.drawn() =~= Seq::<PrimitiveView>::empty());
        s
    }

    /// Draws one thing more in front of the others.
    pub fn push(&mut self, p: Primitive)
        ensures
            final(self).x == old(self).x,
            final(self).y == old(self).y,
            final(self).drawn() == old(self).drawn().push(p@),
    {
        let ghost had = self.drawn();
        let ghost p_v = p@;
        self.primitives.push(p);
        assert(self.drawn() =~= had.push(p_v));
    }
}

} // verus!
