use ferrix_core::annotation::{Annotation, Annotations, Screen};
use ferrix_core::chart::{Bounds, DataPoint};
use ferrix_core::scene::{Primitive, Rgba, Scene};
use ferrix_core::value::{F32, F64};

fn bits(x: f64) -> F64 {
    F64(x.to_bits())
}

fn px(x: f32) -> F32 {
    F32(x.to_bits())
}

fn at(x: F32) -> f32 {
    f32::from_bits(x.0)
}

fn map_x(x: f64) -> f32 {
    x as f32
}

fn map_y(y: f64) -> f32 {
    100.0 - y as f32
}

fn pick(ann: &Annotations, x: f32, y: f32, max: f32) -> Option<usize> {
    let vp = Screen {
        map_x: |x: F64| px(map_x(f64::from_bits(x.0))),
        map_y: |y: F64| px(map_y(f64::from_bits(y.0))),
        apart: |a: F32, b: F32| px((at(a) - at(b)).abs()),
        direct: |a: (F32, F32), b: (F32, F32)| {
            px(((at(a.0) - at(b.0)).powi(2) + (at(a.1) - at(b.1)).powi(2)).sqrt())
        },
        middle: |a: F64, b: F64| bits((f64::from_bits(a.0) + f64::from_bits(b.0)) / 2.0),
    };
    ann.pick(&vp, px(x), px(y), px(max))
}

#[test]
fn picking_finds_the_nearest_annotation() {
    let mut ann = Annotations::new();
    ann.add(Annotation::point(DataPoint::new(bits(10.0), bits(10.0)), "a"));
    let near = ann.add(Annotation::point(DataPoint::new(bits(80.0), bits(80.0)), "b"));

    let (px, py) = (map_x(80.0), map_y(80.0));
    assert_eq!(pick(&ann, px + 3.0, py + 3.0, 10.0), Some(near));
    assert_eq!(pick(&ann, 50.0, 50.0, 5.0), None);
}

#[test]
fn vline_picking_ignores_the_y_distance() {
    let mut ann = Annotations::new();
    let i = ann.add(Annotation::vline(bits(50.0), "deploy"));
    let x = map_x(50.0);
    assert_eq!(pick(&ann, x + 2.0, 5.0, 6.0), Some(i));
    assert_eq!(pick(&ann, x + 2.0, 95.0, 6.0), Some(i));
    assert_eq!(pick(&ann, x + 40.0, 50.0, 6.0), None);
}

#[test]
fn band_picking_is_inside_or_nearest_edge() {
    let mut ann = Annotations::new();
    let i = ann.add(Annotation::band(bits(20.0), bits(40.0), "outage"));
    assert_eq!(pick(&ann, map_x(30.0), 50.0, 1.0), Some(i));
    assert_eq!(pick(&ann, map_x(41.0), 50.0, 5.0), Some(i));
    assert_eq!(pick(&ann, map_x(90.0), 50.0, 5.0), None);
}

#[test]
fn axis_rules_span_the_current_bounds() {
    let mut ann = Annotations::new();
    ann.add(Annotation::vline(bits(5.0), "x"));

    let mut tall = Scene::new(Bounds::new(bits(0.0), bits(10.0)), Bounds::new(bits(0.0), bits(1000.0)));
    ann.draw_into(&mut tall);
    let line = tall
        .primitives
        .iter()
        .find_map(|p| match p {
            Primitive::Polyline { points, .. } => Some(points.clone()),
            _ => None,
        })
        .expect("vline");
    assert_eq!(line[0].y, bits(0.0));
    assert_eq!(line[1].y, bits(1000.0), "rule must span the full y range");
}

#[test]
fn removing_an_annotation_shifts_later_indices() {
    let mut ann = Annotations::new();
    ann.add(Annotation::point(DataPoint::new(bits(1.0), bits(1.0)), "a"));
    ann.add(Annotation::point(DataPoint::new(bits(2.0), bits(2.0)), "b"));
    ann.add(Annotation::point(DataPoint::new(bits(3.0), bits(3.0)), "c"));
    let removed = ann.remove(1).unwrap();
    assert_eq!(removed.text, "b");
    assert_eq!(ann.len(), 2);
    assert_eq!(ann.get(1).unwrap().text, "c");
    assert!(ann.remove(99).is_none(), "out of range must not panic");
}

#[test]
fn empty_text_draws_geometry_without_a_label() {
    let mut scene = Scene::new(Bounds::new(bits(0.0), bits(10.0)), Bounds::new(bits(0.0), bits(10.0)));
    let mut ann = Annotations::new();
    ann.add(Annotation::point(DataPoint::new(bits(5.0), bits(5.0)), ""));
    ann.draw_into(&mut scene);
    let texts = scene
        .primitives
        .iter()
        .filter(|p| matches!(p, Primitive::Text { .. }))
        .count();
    assert_eq!(texts, 0, "empty text must not emit an empty label");
    assert!(scene
        .primitives
        .iter()
        .any(|p| matches!(p, Primitive::Circle { .. })));
}

#[test]
fn an_added_annotation_reads_back_until_it_is_removed() {
    let mut ann = Annotations::new();
    let i = ann.add(Annotation::hline(bits(3.0), "limit").with_color(Rgba::rgb(1, 2, 3)));
    assert_eq!(ann.get(i).unwrap().color, Rgba(1, 2, 3, 255));
    let removed = ann.remove(i).unwrap();
    assert_eq!(removed.text, "limit");
    assert!(ann.is_empty());
}
