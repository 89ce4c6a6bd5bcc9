//! Chart annotations: user-authored marks anchored to data.
//!
//! An annotation stores a position in data coordinates. Resizing the chart moves
//! the pixels; the annotation stays on its data point. Annotations live alongside
//! the chart and never modify the data.

use crate::chart::{Bounds, DataPoint};
use crate::page::exact::Ruler;
use crate::scene::{Anchor, Primitive, PrimitiveView, Rgba, Scene};
use crate::value::{F32, F64};
use vstd::prelude::*;

verus! {

/// The label size in pixels: 11.
pub const LABEL_PX: u32 = 0x4130_0000;

/// The marker radius in pixels: 4.
pub const MARKER_PX: u32 = 0x4080_0000;

/// The line width in pixels: 1.
pub const LINE_PX: u32 = 0x3f80_0000;

/// What an annotation is attached to.
#[derive(Clone, Copy, Debug, PartialEq, Eq, Structural)]
pub enum AnnotationKind {
    /// A note at a single data point, optionally with a leader line.
    Point { at: DataPoint },
    /// A vertical rule at an x value.
    VLine { x: F64 },
    /// A horizontal rule at a y value.
    HLine { y: F64 },
    /// A shaded x span.
    XBand { x0: F64, x1: F64 },
    /// A shaded rectangle in data space.
    Region { x0: F64, y0: F64, x1: F64, y1: F64 },
}

/// Where on one axis an annotation is anchored.
#[derive(Clone, Copy, Debug, PartialEq, Eq, Structural)]
pub enum Span {
    /// At one value.
    At(F64),
    /// In the middle between two values.
    Between(F64, F64),
    /// Anywhere: the annotation runs along the axis.
    Anywhere,
}

/// A user-authored annotation.
#[derive(Debug, PartialEq)]
pub struct Annotation {
    pub kind: AnnotationKind,
    pub text: String,
    pub color: Rgba,
    /// Label offset in device pixels.
    pub label_offset_px: (F32, F32),
    /// Draw a leader line from the label back to the anchor point.
    pub leader: bool,
}

#[verifier::ext_equal]
pub ghost struct AnnotationView {
    pub kind: AnnotationKind,
    pub text: Seq<char>,
    pub color: Rgba,
    pub label_offset_px: (F32, F32),
    pub leader: bool,
}

impl View for Annotation {
    type V = AnnotationView;

    open spec fn view(&self) -> AnnotationView {
        AnnotationView {
            kind: self.kind,
            text: self.text@,
            color: self.color,
            label_offset_px: self.label_offset_px,
            leader: self.leader,
        }
    }
}

impl Clone for Annotation {
    fn clone(&self) -> (r: Annotation)
        ensures
            r@ == self@,
    {
        Annotation {
            kind: self.kind,
            text: self.text.clone(),
            color: self.color,
            label_offset_px: self.label_offset_px,
            leader: self.leader,
        }
    }
}

impl AnnotationView {
    pub open spec fn anchor_point(self) -> (Span, Span) {
        match self.kind {
            AnnotationKind::Point { at } => (Span::At(at.x), Span::At(at.y)),
            AnnotationKind::VLine { x } => (Span::At(x), Span::Anywhere),
            AnnotationKind::HLine { y } => (Span::Anywhere, Span::At(y)),
            AnnotationKind::XBand { x0, x1 } => (Span::Between(x0, x1), Span::Anywhere),
            AnnotationKind::Region { x0, y0, x1, y1 } => (
                Span::Between(x0, x1),
                Span::Between(y0, y1),
            ),
        }
    }
}

impl Annotation {
    pub fn point(at: DataPoint, text: &str) -> (a: Annotation)
        ensures
            a@ == (AnnotationView {
                kind: AnnotationKind::Point { at },
                text: text@,
                color: Rgba::opaque(0xd6, 0x28, 0x2c),
                label_offset_px: (F32(0x4100_0000), F32(0xc100_0000)),
                leader: true,
            }),
    {
        Annotation {
            kind: AnnotationKind::Point { at },
            text: text.to_owned(),
            color: Rgba::rgb(0xd6, 0x28, 0x2c),
            label_offset_px: (F32(0x4100_0000), F32(0xc100_0000)),
            leader: true,
        }
    }

    pub fn vline(x: F64, text: &str) -> (a: Annotation)
        ensures
            a@ == (AnnotationView {
                kind: AnnotationKind::VLine { x },
                text: text@,
                color: Rgba::opaque(0xd6, 0x28, 0x2c),
                label_offset_px: (F32(0x4080_0000), F32(0x4140_0000)),
                leader: false,
            }),
    {
        Annotation {
            kind: AnnotationKind::VLine { x },
            text: text.to_owned(),
            color: Rgba::rgb(0xd6, 0x28, 0x2c),
            label_offset_px: (F32(0x4080_0000), F32(0x4140_0000)),
            leader: false,
        }
    }

    pub fn hline(y: F64, text: &str) -> (a: Annotation)
        ensures
            a@ == (AnnotationView {
                kind: AnnotationKind::HLine { y },
                text: text@,
                color: Rgba::opaque(0x2c, 0xa0, 0x2c),
                label_offset_px: (F32(0x40c0_0000), F32(0xc0c0_0000)),
                leader: false,
            }),
    {
        Annotation {
            kind: AnnotationKind::HLine { y },
            text: text.to_owned(),
            color: Rgba::rgb(0x2c, 0xa0, 0x2c),
            label_offset_px: (F32(0x40c0_0000), F32(0xc0c0_0000)),
            leader: false,
        }
    }

    pub fn band(x0: F64, x1: F64, text: &str) -> (a: Annotation)
        ensures
            a@ == (AnnotationView {
                kind: AnnotationKind::XBand { x0, x1 },
                text: text@,
                color: Rgba(0xff, 0xa5, 0x00, 0x40),
                label_offset_px: (F32(0x4080_0000), F32(0x4140_0000)),
                leader: false,
            }),
    {
        Annotation {
            kind: AnnotationKind::XBand { x0, x1 },
            text: text.to_owned(),
            color: Rgba(0xff, 0xa5, 0x00, 0x40),
            label_offset_px: (F32(0x4080_0000), F32(0x4140_0000)),
            leader: false,
        }
    }

    pub fn with_color(self, c: Rgba) -> (a: Annotation)
        ensures
            a@ == (AnnotationView { color: c, ..self@ }),
    {
        let mut a = self;
        a.color = c;
        a
    }

    /// Where this annotation is anchored on the two axes, for hit-testing and for
    /// keeping it attached across resizes.
    pub fn anchor_point(&self) -> (r: (Span, Span))
        ensures
            r == self@.anchor_point(),
    {
        match self.kind {
            AnnotationKind::Point { at } => (Span::At(at.x), Span::At(at.y)),
            AnnotationKind::VLine { x } => (Span::At(x), Span::Anywhere),
            AnnotationKind::HLine { y } => (Span::Anywhere, Span::At(y)),
            AnnotationKind::XBand { x0, x1 } => (Span::Between(x0, x1), Span::Anywhere),
            AnnotationKind::Region { x0, y0, x1, y1 } => (
                Span::Between(x0, x1),
                Span::Between(y0, y1),
            ),
        }
    }
}

// ---------------------------------------------------------------- drawing --

pub open spec fn rule(from: DataPoint, to: DataPoint, color: Rgba) -> PrimitiveView {
    PrimitiveView::Polyline { points: seq![from, to], color, width: F32(LINE_PX) }
}

/// The label of an annotation, where it has one.
pub open spec fn label(
    a: AnnotationView,
    at: DataPoint,
    color: Rgba,
    anchor: Anchor,
) -> Seq<PrimitiveView> {
    if a.text.len() == 0 {
        Seq::empty()
    } else {
        seq![
            PrimitiveView::Text {
                at,
                text: a.text,
                size_px: F32(LABEL_PX),
                color,
                anchor,
                offset_px: a.label_offset_px,
            },
        ]
    }
}

pub open spec fn solid(c: Rgba) -> Rgba {
    Rgba(c.0, c.1, c.2, 255)
}

/// What an annotation draws in a scene of the given ranges. Rules and bands
/// extend to the ranges.
pub open spec fn marks(a: AnnotationView, x: Bounds, y: Bounds) -> Seq<PrimitiveView> {
    match a.kind {
        AnnotationKind::Point { at } => {
            let dot = seq![
                PrimitiveView::Circle { center: at, radius_px: F32(MARKER_PX), fill: a.color },
            ];
            let lead = if a.leader && a.text.len() > 0 {
                seq![rule(at, at, a.color)]
            } else {
                Seq::empty()
            };
            dot + lead + label(a, at, a.color, Anchor::Start)
        },
        AnnotationKind::VLine { x: at } => seq![
            rule(DataPoint { x: at, y: y.min }, DataPoint { x: at, y: y.max }, a.color),
        ] + label(a, DataPoint { x: at, y: y.max }, a.color, Anchor::Start),
        AnnotationKind::HLine { y: at } => seq![
            rule(DataPoint { x: x.min, y: at }, DataPoint { x: x.max, y: at }, a.color),
        ] + label(a, DataPoint { x: x.max, y: at }, a.color, Anchor::End),
        AnnotationKind::XBand { x0, x1 } => seq![
            PrimitiveView::Rect { x0, y0: y.min, x1, y1: y.max, fill: a.color, stroke: None },
        ] + label(a, DataPoint { x: x0, y: y.max }, solid(a.color), Anchor::Start),
        AnnotationKind::Region { x0, y0, x1, y1 } => seq![
            PrimitiveView::Rect {
                x0,
                y0,
                x1,
                y1,
                fill: a.color,
                stroke: Some((a.color, F32(LINE_PX))),
            },
        ] + label(a, DataPoint { x: x0, y: y1 }, solid(a.color), Anchor::Start),
    }
}

/// What a layer of annotations draws.
pub open spec fn layer(v: Seq<AnnotationView>, x: Bounds, y: Bounds) -> Seq<PrimitiveView>
    decreases v.len(),
{
    if v.len() == 0 {
        Seq::empty()
    } else {
        layer(v.drop_last(), x, y) + marks(v.last(), x, y)
    }
}

fn draw_rule(scene: &mut Scene, from: DataPoint, to: DataPoint, color: Rgba)
    ensures
        final(scene).x == old(scene).x,
        final(scene).y == old(scene).y,
        final(scene).drawn() == old(scene).drawn() + seq![rule(from, to, color)],
{
    let mut points: Vec<DataPoint> = Vec::new();
    points.push(from);
    points.push(to);
    let ghost had = scene.drawn();
    assert(points@ =~= seq![from, to]);
    scene.push(Primitive::Polyline { points, color, width: F32(LINE_PX) });
    assert(scene.drawn() =~= had + seq![rule(from, to, color)]);
}

fn draw_label(scene: &mut Scene, a: &Annotation, at: DataPoint, color: Rgba, anchor: Anchor)
    ensures
        final(scene).x == old(scene).x,
        final(scene).y == old(scene).y,
        final(scene).drawn() == old(scene).drawn() + label(a@, at, color, anchor),
{
    let ghost had = scene.drawn();
    if !is_blank(&a.text) {
        scene.push(
            Primitive::Text {
                at,
                text: a.text.clone(),
                size_px: F32(LABEL_PX),
                color,
                anchor,
                offset_px: a.label_offset_px,
            },
        );
    }
    assert(scene.drawn() =~= had + label(a@, at, color, anchor));
}

fn is_blank(s: &String) -> (b: bool)
    ensures
        b == (s@.len() == 0),
{
    let empty = String::new();
    let b = *s == empty;
    assert(b ==> s@.len() == 0);
    assert(s@.len() == 0 ==> s@ =~= Seq::<char>::empty());
    b
}

fn draw_rect(
    scene: &mut Scene,
    from: DataPoint,
    to: DataPoint,
    fill: Rgba,
    stroke: Option<(Rgba, F32)>,
)
    ensures
        final(scene).x == old(scene).x,
        final(scene).y == old(scene).y,
        final(scene).drawn() == old(scene).drawn() + seq![
            PrimitiveView::Rect { x0: from.x, y0: from.y, x1: to.x, y1: to.y, fill, stroke },
        ],
{
    let ghost had = scene.drawn();
    scene.push(
        Primitive::Rect { x0: from.x, y0: from.y, x1: to.x, y1: to.y, fill, stroke },
    );
    assert(scene.drawn() =~= had + seq![
        PrimitiveView::Rect { x0: from.x, y0: from.y, x1: to.x, y1: to.y, fill, stroke },
    ]);
}

fn draw_one(scene: &mut Scene, a: &Annotation)
    ensures
        final(scene).x == old(scene).x,
        final(scene).y == old(scene).y,
        final(scene).drawn() == old(scene).drawn() + marks(a@, old(scene).x, old(scene).y),
{
    let x = scene.x;
    let y = scene.y;
    let ghost had = scene.drawn();
    match a.kind {
        AnnotationKind::Point { at } => {
            scene.push(
                Primitive::Circle { center: at, radius_px: F32(MARKER_PX), fill: a.color },
            );
            if a.leader && !is_blank(&a.text) {
                draw_rule(scene, at, at, a.color);
            }
            draw_label(scene, a, at, a.color, Anchor::Start);
        },
        AnnotationKind::VLine { x: at } => {
            draw_rule(scene, DataPoint::new(at, y.min), DataPoint::new(at, y.max), a.color);
            draw_label(scene, a, DataPoint::new(at, y.max), a.color, Anchor::Start);
        },
        AnnotationKind::HLine { y: at } => {
            draw_rule(scene, DataPoint::new(x.min, at), DataPoint::new(x.max, at), a.color);
            draw_label(scene, a, DataPoint::new(x.max, at), a.color, Anchor::End);
        },
        AnnotationKind::XBand { x0, x1 } => {
            draw_rect(scene, DataPoint::new(x0, y.min), DataPoint::new(x1, y.max), a.color, None);
            let c = a.color;
            draw_label(
                scene,
                a,
                DataPoint::new(x0, y.max),
                Rgba(c.0, c.1, c.2, 255),
                Anchor::Start,
            );
        },
        AnnotationKind::Region { x0, y0, x1, y1 } => {
            let c = a.color;
            draw_rect(
                scene,
                DataPoint::new(x0, y0),
                DataPoint::new(x1, y1),
                c,
                Some((c, F32(LINE_PX))),
            );
            draw_label(scene, a, DataPoint::new(x0, y1), Rgba(c.0, c.1, c.2, 255), Anchor::Start);
        },
    }
    assert(scene.drawn() =~= had + marks(a@, x, y));
}

// ------------------------------------------------------------------ layer --

/// A chart's annotation layer.
#[derive(Debug, Clone)]
pub struct Annotations {
    items: Vec<Annotation>,
}

pub open spec fn annotation_views(v: Seq<Annotation>) -> Seq<AnnotationView> {
    Seq::new(v.len(), |i: int| v[i]@)
}

impl View for Annotations {
    type V = Seq<AnnotationView>;

    closed spec fn view(&self) -> Seq<AnnotationView> {
        annotation_views(self.items@)
    }
}

impl Default for Annotations {
    fn default() -> (r: Annotations)
        ensures
            r@ == Seq::<AnnotationView>::empty(),
    {
        Annotations::new()
    }
}

/// `d` is a distance of at most `max`.
pub open spec fn within(d: F32, max: F32) -> bool {
    !d.nan_spec() && !max.nan_spec() && !max.lt_spec(d)
}

/// `i` is the first of the nearest entries within `max`.
pub open spec fn nearest(d: Seq<F32>, max: F32, i: int) -> bool {
    &&& 0 <= i < d.len()
    &&& within(d[i], max)
    &&& forall|k: int|
        0 <= k < d.len() && k != i && within(#[trigger] d[k], max) ==> if k < i {
            d[i].lt_spec(d[k])
        } else {
            !d[k].lt_spec(d[i])
        }
}

/// `r` is the first of the nearest entries within `max`, if there is any.
pub open spec fn picked(d: Seq<F32>, max: F32, r: Option<usize>) -> bool {
    match r {
        Some(i) => nearest(d, max, i as int),
        None => forall|i: int| 0 <= i < d.len() ==> !within(#[trigger] d[i], max),
    }
}

/// Where data is drawn: the pixel of a value on either axis, how far apart two
/// pixels on one axis and two points are, and the middle of two values.
pub struct Screen<X, Y, A, D, M> {
    pub map_x: X,
    pub map_y: Y,
    pub apart: A,
    pub direct: D,
    pub middle: M,
}

/// The smaller of two lengths, or the one that is a number.
pub open spec fn shorter(a: F32, b: F32) -> F32 {
    if a.nan_spec() || b.lt_spec(a) {
        b
    } else {
        a
    }
}

/// Numeric `<=`.
pub open spec fn at_most(a: F32, b: F32) -> bool {
    !a.nan_spec() && !b.nan_spec() && !b.lt_spec(a)
}

fn is_at_most(a: F32, b: F32) -> (r: bool)
    ensures
        r == at_most(a, b),
{
    !a.is_nan() && !b.is_nan() && !b.less_than(a)
}

impl<
    X: Fn(F64) -> F32,
    Y: Fn(F64) -> F32,
    A: Fn(F32, F32) -> F32,
    D: Fn((F32, F32), (F32, F32)) -> F32,
    M: Fn(F64, F64) -> F64,
> Screen<X, Y, A, D, M> {
    /// The operations can be applied to every number.
    pub open spec fn ready(&self) -> bool {
        &&& forall|x: F64| #[trigger] self.map_x.requires((x,))
        &&& forall|y: F64| #[trigger] self.map_y.requires((y,))
        &&& forall|a: F32, b: F32| #[trigger] self.apart.requires((a, b))
        &&& forall|a: (F32, F32), b: (F32, F32)| #[trigger] self.direct.requires((a, b))
        &&& forall|a: F64, b: F64| #[trigger] self.middle.requires((a, b))
    }

    /// `d` is how far the data point is drawn from a device point.
    pub open spec fn point_distance(&self, x: F64, y: F64, px: F32, py: F32, d: F32) -> bool {
        exists|ax: F32, ay: F32|
            {
                &&& #[trigger] self.map_x.ensures((x,), ax)
                &&& #[trigger] self.map_y.ensures((y,), ay)
                &&& self.direct.ensures(((ax, ay), (px, py)), d)
            }
    }

    /// `d` is how far `px` is outside the pixels from `lo` to `hi`.
    pub open spec fn band_distance(&self, lo: F32, hi: F32, px: F32, d: F32) -> bool {
        if at_most(lo, px) && at_most(px, hi) {
            d == F32(0)
        } else {
            exists|a: F32, b: F32|
                {
                    &&& #[trigger] self.apart.ensures((lo, px), a)
                    &&& #[trigger] self.apart.ensures((hi, px), b)
                    &&& d == shorter(a, b)
                }
        }
    }

    /// `d` is how far an annotation is drawn from a device point: from a point to it,
    /// from a rule straight to it, from a band to its nearer edge or nothing inside,
    /// from a region to its middle.
    pub open spec fn distance(&self, kind: AnnotationKind, px: F32, py: F32, d: F32) -> bool {
        match kind {
            AnnotationKind::Point { at } => self.point_distance(at.x, at.y, px, py, d),
            AnnotationKind::VLine { x } => exists|ax: F32| #[trigger]
                self.map_x.ensures((x,), ax) && self.apart.ensures((ax, px), d),
            AnnotationKind::HLine { y } => exists|ay: F32| #[trigger]
                self.map_y.ensures((y,), ay) && self.apart.ensures((ay, py), d),
            AnnotationKind::XBand { x0, x1 } => exists|a: F32, b: F32|
                {
                    &&& #[trigger] self.map_x.ensures((x0,), a)
                    &&& #[trigger] self.map_x.ensures((x1,), b)
                    &&& if at_most(a, b) {
                        self.band_distance(a, b, px, d)
                    } else {
                        self.band_distance(b, a, px, d)
                    }
                },
            AnnotationKind::Region { x0, y0, x1, y1 } => exists|cx: F64, cy: F64|
                {
                    &&& #[trigger] self.middle.ensures((x0, x1), cx)
                    &&& #[trigger] self.middle.ensures((y0, y1), cy)
                    &&& self.point_distance(cx, cy, px, py, d)
                },
        }
    }

    /// `d` are the distances of a layer's annotations.
    pub open spec fn measured(
        &self,
        layer: Seq<AnnotationView>,
        px: F32,
        py: F32,
        d: Seq<F32>,
    ) -> bool {
        &&& d.len() == layer.len()
        &&& forall|i: int| 0 <= i < d.len() ==> self.distance(layer[i].kind, px, py, #[trigger] d[i])
    }

    fn to_point(&self, x: F64, y: F64, px: F32, py: F32) -> (d: F32)
        requires
            self.ready(),
        ensures
            self.point_distance(x, y, px, py, d),
    {
        let ax = (self.map_x)(x);
        let ay = (self.map_y)(y);
        (self.direct)((ax, ay), (px, py))
    }

    fn to_band(&self, lo: F32, hi: F32, px: F32) -> (d: F32)
        requires
            self.ready(),
        ensures
            self.band_distance(lo, hi, px, d),
    {
        if is_at_most(lo, px) && is_at_most(px, hi) {
            return F32(0);
        }
        let a = (self.apart)(lo, px);
        let b = (self.apart)(hi, px);
        if a.is_nan() || b.less_than(a) {
            b
        } else {
            a
        }
    }
}

impl Annotation {
    /// Distance in pixels from a device point to where the annotation is drawn.
    pub fn distance_px<
        X: Fn(F64) -> F32,
        Y: Fn(F64) -> F32,
        A: Fn(F32, F32) -> F32,
        D: Fn((F32, F32), (F32, F32)) -> F32,
        M: Fn(F64, F64) -> F64,
    >(&self, vp: &Screen<X, Y, A, D, M>, px: F32, py: F32) -> (d: F32)
        requires
            vp.ready(),
        ensures
            vp.distance(self.kind, px, py, d),
    {
        match self.kind {
            AnnotationKind::Point { at } => vp.to_point(at.x, at.y, px, py),
            AnnotationKind::VLine { x } => {
                let ax = (vp.map_x)(x);
                (vp.apart)(ax, px)
            },
            AnnotationKind::HLine { y } => {
                let ay = (vp.map_y)(y);
                (vp.apart)(ay, py)
            },
            AnnotationKind::XBand { x0, x1 } => {
                let a = (vp.map_x)(x0);
                let b = (vp.map_x)(x1);
                if is_at_most(a, b) {
                    vp.to_band(a, b, px)
                } else {
                    vp.to_band(b, a, px)
                }
            },
            AnnotationKind::Region { x0, y0, x1, y1 } => {
                let cx = (vp.middle)(x0, x1);
                let cy = (vp.middle)(y0, y1);
                vp.to_point(cx, cy, px, py)
            },
        }
    }
}

/// The first of the nearest entries within `max_px`.
fn nearest_of(distances: &Vec<F32>, max_px: F32) -> (r: Option<usize>)
    ensures
        picked(distances@, max_px, r),
{
    let mut best: Option<usize> = None;
    let mut i: usize = 0;
    while i < distances.len()
        invariant
            i <= distances@.len(),
            match best {
                Some(b) => b < i && nearest(
                    distances@.subrange(0, i as int),
                    max_px,
                    b as int,
                ),
                None => forall|k: int|
                    0 <= k < i ==> !within(#[trigger] distances@[k], max_px),
            },
        decreases distances@.len() - i,
    {
        let d = distances[i];
        let ghost seen = distances@.subrange(0, i as int);
        let ghost more = distances@.subrange(0, i + 1);
        let nan = d.is_nan() || max_px.is_nan();
        let better = !nan && !max_px.less_than(d) && match best {
            Some(b) => d.less_than(distances[b]),
            None => true,
        };
        proof {
            assert forall|k: int| 0 <= k < i implies #[trigger] more[k] == seen[k] by {}
            assert(more[i as int] == d);
        }
        if better {
            best = Some(i);
        }
        i = i + 1;
    }
    assert(distances@.subrange(0, distances@.len() as int) =~= distances@);
    best
}

impl Annotations {
    pub fn new() -> (r: Annotations)
        ensures
            r@ == Seq::<AnnotationView>::empty(),
    {
        let r = Annotations { items: Vec::new() };
        assert(r@ =~= Seq::<AnnotationView>::empty());
        r
    }

    /// Adds an annotation and tells its index.
    pub fn add(&mut self, a: Annotation) -> (i: usize)
        ensures
            final(self)@ == old(self)@.push(a@),
            i == old(self)@.len(),
    {
        let ghost a_v = a@;
        let ghost had = self@;
        let i: usize = self.items.len();
        self.items.push(a);
        assert(self@ =~= had.push(a_v));
        i
    }

    /// Takes an annotation out; those behind it move up by one.
    pub fn remove(&mut self, index: usize) -> (r: Option<Annotation>)
        ensures
            match r {
                Some(a) => index < old(self)@.len() && a@ == old(self)@[index as int]
                    && final(self)@ == old(self)@.remove(index as int),
                None => index >= old(self)@.len() && final(self)@ == old(self)@,
            },
    {
        let ghost had = self@;
        if index < self.items.len() {
            let a = self.items.remove(index);
            assert(self@ =~= had.remove(index as int));
            Some(a)
        } else {
            None
        }
    }

    pub fn get(&self, index: usize) -> (r: Option<&Annotation>)
        ensures
            match r {
                Some(a) => index < self@.len() && a@ == self@[index as int],
                None => index >= self@.len(),
            },
    {
        if index < self.items.len() {
            Some(&self.items[index])
        } else {
            None
        }
    }

    pub fn get_mut(&mut self, index: usize) -> (r: Option<&mut Annotation>)
        ensures
            match r {
                Some(a) => index < old(self)@.len() && a@ == old(self)@[index as int]
                    && final(self)@ == old(self)@.update(index as int, final(a)@),
                None => index >= old(self)@.len() && final(self)@ == old(self)@,
            },
    {
        if index < self.items.len() {
            let a = &mut self.items[index];
            Some(a)
        } else {
            None
        }
    }

    pub fn len(&self) -> (n: usize)
        ensures
            n == self@.len(),
    {
        self.items.len()
    }

    pub fn is_empty(&self) -> (b: bool)
        ensures
            b == (self@.len() == 0),
    {
        self.items.len() == 0
    }

    /// The annotations in the order in which they are drawn.
    pub fn iter(&self) -> (r: &[Annotation])
        ensures
            annotation_views(r@) == self@,
    {
        self.items.as_slice()
    }

    pub fn clear(&mut self)
        ensures
            final(self)@ == Seq::<AnnotationView>::empty(),
    {
        self.items.clear();
        assert(self@ =~= Seq::<AnnotationView>::empty());
    }

    /// Find the annotation nearest a device point, within `max_px`.
    pub fn pick<
        X: Fn(F64) -> F32,
        Y: Fn(F64) -> F32,
        A: Fn(F32, F32) -> F32,
        D: Fn((F32, F32), (F32, F32)) -> F32,
        M: Fn(F64, F64) -> F64,
    >(&self, vp: &Screen<X, Y, A, D, M>, px: F32, py: F32, max_px: F32) -> (r: Option<usize>)
        requires
            vp.ready(),
        ensures
            exists|d: Seq<F32>|
                {
                    &&& #[trigger] vp.measured(self@, px, py, d)
                    &&& picked(d, max_px, r)
                },
    {
        let mut distances: Vec<F32> = Vec::new();
        let mut i: usize = 0;
        while i < self.items.len()
            invariant
                vp.ready(),
                i <= self.items@.len(),
                distances@.len() == i,
                forall|k: int|
                    0 <= k < i ==> vp.distance(
                        self.items@[k].kind,
                        px,
                        py,
                        #[trigger] distances@[k],
                    ),
            decreases self.items@.len() - i,
        {
            let d = self.items[i].distance_px(vp, px, py);
            distances.push(d);
            i = i + 1;
        }
        assert(vp.measured(self@, px, py, distances@));
        nearest_of(&distances, max_px)
    }

    /// Append this layer's geometry to a scene, in data coordinates.
    ///
    /// Annotations are drawn over the data, and axis rules extend to the scene's
    /// current bounds rather than to remembered pixel positions.
    pub fn draw_into(&self, scene: &mut Scene)
        ensures
            final(scene).x == old(scene).x,
            final(scene).y == old(scene).y,
            final(scene).drawn() == old(scene).drawn() + layer(self@, old(scene).x, old(scene).y),
    {
        let ghost x = scene.x;
        let ghost y = scene.y;
        let ghost had = scene.drawn();
        let mut i: usize = 0;
        assert(had + layer(self@.subrange(0, 0), x, y) =~= had);
        while i < self.items.len()
            invariant
                i <= self@.len(),
                self@ == annotation_views(self.items@),
                scene.x == x,
                scene.y == y,
                scene.drawn() == had + layer(self@.subrange(0, i as int), x, y),
            decreases self@.len() - i,
        {
            let ghost before = layer(self@.subrange(0, i as int), x, y);
            draw_one(scene, &self.items[i]);
            proof {
                let t = self@.subrange(0, i + 1);
                assert(t.drop_last() =~= self@.subrange(0, i as int));
                assert(t.last() == self.items@[i as int]@);
                assert((had + before) + marks(t.last(), x, y) =~= had + layer(t, x, y));
            }
            i = i + 1;
        }
        assert(self@.subrange(0, self@.len() as int) =~= self@);
    }
}

// ------------------------------------------------------------------- laws --

/// An annotation without text draws its geometry and no label.
pub proof fn empty_text_draws_no_label(a: AnnotationView, x: Bounds, y: Bounds, i: int)
    requires
        a.text.len() == 0,
        0 <= i < marks(a, x, y).len(),
    ensures
        marks(a, x, y).len() == 1,
        !(marks(a, x, y)[i] is Text),
{
}

/// A point annotation is drawn on its data point whatever ranges are shown.
pub proof fn a_note_stays_on_its_data_point(
    a: AnnotationView,
    x: Bounds,
    y: Bounds,
    x2: Bounds,
    y2: Bounds,
)
    requires
        a.kind is Point,
    ensures
        marks(a, x, y) == marks(a, x2, y2),
{
}

/// Adding an annotation and removing it again leaves the layer as it was.
pub proof fn an_added_annotation_can_be_removed(v: Seq<AnnotationView>, a: AnnotationView)
    ensures
        v.push(a).remove(v.len() as int) == v,
{
    assert(v.push(a).remove(v.len() as int) =~= v);
}

/// What is picked is within reach, nothing is nearer, and of those that are as near it
/// is the first; nothing is picked where nothing is within reach.
pub proof fn the_nearest_within_reach_is_picked(d: Seq<F32>, max: F32, r: Option<usize>, k: int)
    requires
        picked(d, max, r),
        !max.nan_spec(),
        forall|i: int| 0 <= i < d.len() ==> !(#[trigger] d[i]).nan_spec(),
        0 <= k < d.len(),
    ensures
        r is None ==> d[k].rank() > max.rank(),
        r is Some ==> r->0 < d.len() && d[r->0 as int].rank() <= max.rank() && d[r->0 as int].rank()
            <= d[k].rank() && (d[k].rank() == d[r->0 as int].rank() ==> r->0 <= k),
{
    match r {
        Some(i) => {
            assert(!d[i as int].nan_spec() && !d[k].nan_spec());
            if d[k].rank() <= max.rank() {
                assert(within(d[k], max));
            }
        },
        None => {
            assert(!within(d[k], max));
        },
    }
}

/// How far `p` is from the pixels between `a` and `b`.
pub open spec fn units_outside(a: int, b: int, p: int) -> int {
    let lo = if a <= b {
        a
    } else {
        b
    };
    let hi = if a <= b {
        b
    } else {
        a
    };
    if p < lo {
        lo - p
    } else if p > hi {
        p - hi
    } else {
        0
    }
}

/// On a screen of whole pixels a rule is as far away as it is across to it, and a band
/// as far as it is to its nearer edge, whichever way round its edges were given; inside
/// a band there is no distance.
pub proof fn distances_are_those_on_the_screen<
    X: Fn(F64) -> F32,
    Y: Fn(F64) -> F32,
    A: Fn(F32, F32) -> F32,
    D: Fn((F32, F32), (F32, F32)) -> F32,
    M: Fn(F64, F64) -> F64,
>(
    screen: Screen<X, Y, A, D, M>,
    ruler: Ruler,
    across: spec_fn(F64) -> int,
    down: spec_fn(F64) -> int,
    x0: F64,
    x1: F64,
    y: F64,
    px: F32,
    py: F32,
    left: int,
    top: int,
    d: F32,
)
    requires
        ruler.straight(),
        forall|x: F64, r: F32| #[trigger] screen.map_x.ensures((x,), r) ==> ruler.reads(r, across(x)),
        forall|y: F64, r: F32| #[trigger] screen.map_y.ensures((y,), r) ==> ruler.reads(r, down(y)),
        forall|a: F32, b: F32, r: F32, m: int, n: int| #[trigger]
            screen.apart.ensures((a, b), r) && #[trigger] ruler.reads(a, m) && #[trigger] ruler.reads(
                b,
                n,
            ) ==> ruler.reads(
                r,
                if m <= n {
                    n - m
                } else {
                    m - n
                },
            ),
        ruler.reads(px, left),
        ruler.reads(py, top),
    ensures
        screen.distance(AnnotationKind::VLine { x: x0 }, px, py, d) ==> ruler.reads(
            d,
            units_outside(across(x0), across(x0), left),
        ),
        screen.distance(AnnotationKind::HLine { y }, px, py, d) ==> ruler.reads(
            d,
            units_outside(down(y), down(y), top),
        ),
        screen.distance(AnnotationKind::XBand { x0, x1 }, px, py, d) ==> ruler.reads(
            d,
            units_outside(across(x0), across(x1), left),
        ),
{
    if screen.distance(AnnotationKind::VLine { x: x0 }, px, py, d) {
        let ax = choose|ax: F32| #[trigger]
            screen.map_x.ensures((x0,), ax) && screen.apart.ensures((ax, px), d);
        assert(ruler.reads(ax, across(x0)));
    }
    if screen.distance(AnnotationKind::HLine { y }, px, py, d) {
        let ay = choose|ay: F32| #[trigger]
            screen.map_y.ensures((y,), ay) && screen.apart.ensures((ay, py), d);
        assert(ruler.reads(ay, down(y)));
    }
    if screen.distance(AnnotationKind::XBand { x0, x1 }, px, py, d) {
        let (a, b) = choose|a: F32, b: F32|
            {
                &&& #[trigger] screen.map_x.ensures((x0,), a)
                &&& #[trigger] screen.map_x.ensures((x1,), b)
                &&& if at_most(a, b) {
                    screen.band_distance(a, b, px, d)
                } else {
                    screen.band_distance(b, a, px, d)
                }
            };
        assert(ruler.reads(a, across(x0)) && ruler.reads(b, across(x1)));
        if at_most(a, b) {
            lemma_band(screen, ruler, a, b, px, across(x0), across(x1), left, d);
        } else {
            lemma_band(screen, ruler, b, a, px, across(x1), across(x0), left, d);
        }
    }
}

proof fn lemma_band<
    X: Fn(F64) -> F32,
    Y: Fn(F64) -> F32,
    A: Fn(F32, F32) -> F32,
    D: Fn((F32, F32), (F32, F32)) -> F32,
    M: Fn(F64, F64) -> F64,
>(
    screen: Screen<X, Y, A, D, M>,
    ruler: Ruler,
    lo: F32,
    hi: F32,
    px: F32,
    m: int,
    n: int,
    left: int,
    d: F32,
)
    requires
        ruler.straight(),
        forall|a: F32, b: F32, r: F32, m: int, n: int| #[trigger]
            screen.apart.ensures((a, b), r) && #[trigger] ruler.reads(a, m) && #[trigger] ruler.reads(
                b,
                n,
            ) ==> ruler.reads(
                r,
                if m <= n {
                    n - m
                } else {
                    m - n
                },
            ),
        ruler.reads(lo, m) && ruler.reads(hi, n) && ruler.reads(px, left),
        m <= n,
        screen.band_distance(lo, hi, px, d),
    ensures
        ruler.reads(d, units_outside(m, n, left)),
{
    assert(!lo.nan_spec() && !hi.nan_spec() && !px.nan_spec());
    assert(px.lt_spec(lo) <==> left < m);
    assert(hi.lt_spec(px) <==> n < left);
    if at_most(lo, px) && at_most(px, hi) {
        assert(ruler.reads(F32(0), 0));
    } else {
        let (a, b) = choose|a: F32, b: F32|
            {
                &&& #[trigger] screen.apart.ensures((lo, px), a)
                &&& #[trigger] screen.apart.ensures((hi, px), b)
                &&& d == shorter(a, b)
            };
        let u = if m <= left {
            left - m
        } else {
            m - left
        };
        let v = if n <= left {
            left - n
        } else {
            n - left
        };
        assert(ruler.reads(a, u) && ruler.reads(b, v));
        assert(b.lt_spec(a) <==> v < u);
    }
}

/// A vertical rule runs from the bottom of the range to its top, a horizontal one from
/// side to side, and a band is shaded from the bottom to the top.
pub proof fn rules_and_bands_span_the_range(a: AnnotationView, x: Bounds, y: Bounds)
    ensures
        marks(a, x, y).len() > 0,
        match (a.kind, marks(a, x, y)[0]) {
            (
                AnnotationKind::VLine { x: at },
                PrimitiveView::Polyline { points, color, .. },
            ) => points.len() == 2 && points[0].x == at && points[1].x == at && points[0].y == y.min
                && points[1].y == y.max && color == a.color,
            (
                AnnotationKind::HLine { y: at },
                PrimitiveView::Polyline { points, color, .. },
            ) => points.len() == 2 && points[0].y == at && points[1].y == at && points[0].x == x.min
                && points[1].x == x.max && color == a.color,
            (
                AnnotationKind::XBand { x0, x1 },
                PrimitiveView::Rect { x0: l, y0: b, x1: r, y1: t, fill, .. },
            ) => l == x0 && r == x1 && b == y.min && t == y.max && fill == a.color,
            (
                AnnotationKind::Region { x0, y0, x1, y1 },
                PrimitiveView::Rect { x0: l, y0: b, x1: r, y1: t, fill, .. },
            ) => l == x0 && r == x1 && b == y0 && t == y1 && fill == a.color,
            (
                AnnotationKind::Point { at },
                PrimitiveView::Circle { center, fill, .. },
            ) => center == at && fill == a.color,
            _ => false,
        },
        a.text.len() > 0 ==> match marks(a, x, y).last() {
            PrimitiveView::Text { text, offset_px, .. } => text == a.text && offset_px
                == a.label_offset_px,
            _ => false,
        },
{
}

} // verus!
