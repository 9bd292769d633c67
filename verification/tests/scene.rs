use grbly::arith::{Calculator, Op, Scalar, Style};
use std::sync::Arc;

use grbly::grbl::state::{JobState, MachineState, Segment, Vec3};
use grbly::material::MaterialField;
use grbly::ui::color::rgba;
use grbly::ui::scene::{
    build_material, build_probe_points, Change, Layer, ProbePreview, Redraw, Scene, SceneUpdate,
    SceneVisibility,
};
use grbly::ui::strokes::{
    build_axes, build_gantry, build_grid, build_toolpath, build_trail, build_wire_box, depth_color,
    heatmap_color, material_color,
};

/// The machine's own arithmetic.
type Native = Calculator<
    fn(Op, bool, u64, u64) -> u64,
    fn(bool, &str) -> u64,
    fn(Style, u64) -> String,
>;

// The bits of a number, one pattern for all that are none.
fn single_bits(r: f32) -> u64 {
    if r.is_nan() {
        0x7fc0_0000
    } else {
        r.to_bits() as u64
    }
}

// The bits of a number, one pattern for all that are none.
fn double_bits(r: f64) -> u64 {
    if r.is_nan() {
        0x7ff8_0000_0000_0000
    } else {
        r.to_bits()
    }
}

fn single(op: Op, x: u64, y: u64) -> u64 {
    let a = f32::from_bits(x as u32);
    let b = f32::from_bits(y as u32);
    let r = match op {
        Op::Add => a + b,
        Op::Sub => a - b,
        Op::Mul => a * b,
        Op::Div => a / b,
        Op::Sqrt => a.sqrt(),
        Op::Square => a.powi(2),
        Op::Floor => a.floor(),
        Op::Ceil => a.ceil(),
        Op::Round => a.round(),
        Op::Trunc => a.trunc(),
        Op::Cos => a.cos(),
        Op::Sin => a.sin(),
        Op::Atan2 => a.atan2(b),
        Op::Convert => return double_bits(a as f64),
        Op::FromSigned => (x as i64) as f32,
        Op::FromUnsigned => x as f32,
        Op::ToSigned => return (a as i64) as u64,
        Op::ToUnsigned => return a as u64,
    };
    single_bits(r)
}

fn double(op: Op, x: u64, y: u64) -> u64 {
    let a = f64::from_bits(x);
    let b = f64::from_bits(y);
    let r = match op {
        Op::Add => a + b,
        Op::Sub => a - b,
        Op::Mul => a * b,
        Op::Div => a / b,
        Op::Sqrt => a.sqrt(),
        Op::Square => a.powi(2),
        Op::Floor => a.floor(),
        Op::Ceil => a.ceil(),
        Op::Round => a.round(),
        Op::Trunc => a.trunc(),
        Op::Cos => a.cos(),
        Op::Sin => a.sin(),
        Op::Atan2 => a.atan2(b),
        Op::Convert => return single_bits(a as f32),
        Op::FromSigned => (x as i64) as f64,
        Op::FromUnsigned => x as f64,
        Op::ToSigned => return (a as i64) as u64,
        Op::ToUnsigned => return a as u64,
    };
    double_bits(r)
}

fn calc(op: Op, wide: bool, x: u64, y: u64) -> u64 {
    if wide {
        double(op, x, y)
    } else {
        single(op, x, y)
    }
}

fn read(wide: bool, text: &str) -> u64 {
    if wide {
        double_bits(text.parse::<f64>().unwrap())
    } else {
        single_bits(text.parse::<f32>().unwrap())
    }
}

fn write(style: Style, bits: u64) -> String {
    match style {
        Style::Fixed(places) => format!("{:.*}", places as usize, f32::from_bits(bits as u32)),
        Style::Plain => format!("{}", f64::from_bits(bits)),
    }
}

fn native() -> Native {
    Calculator::new(calc, read, write)
}

fn f(x: f32) -> Scalar {
    Scalar { bits: x.to_bits() }
}

fn num(x: Scalar) -> f32 {
    f32::from_bits(x.bits)
}

fn v(x: f32, y: f32, z: f32) -> Vec3 {
    Vec3 { x: f(x), y: f(y), z: f(z) }
}

fn seg(start: Vec3, end: Vec3, rapid: bool, line: usize) -> Segment {
    Segment { start, end, rapid, line }
}

fn preview() -> ProbePreview {
    ProbePreview {
        bbox_min: (f(0.0), f(0.0)),
        bbox_max: (f(10.0), f(10.0)),
        grid_x: 2,
        grid_y: 2,
        samples: Some(vec![Some(f(1.0)), None]),
        current_index: Some(2),
        skipped: vec![false, false, false, true],
    }
}

fn update(scene: &mut Scene, pos: Vec3, m: &MachineState, j: &JobState, reset: u64) -> Redraw {
    scene.update(
        &native(),
        SceneUpdate {
            tool_pos: pos,
            mstate: m,
            jstate: j,
            show_heatmap: true,
            probe_preview: None,
            material_version: None,
            trail_reset: reset,
        },
    )
}

fn count(change: &Change) -> Option<usize> {
    match change {
        Change::Replace(strokes) => Some(strokes.len()),
        _ => None,
    }
}

#[test]
fn boxes() {
    let edges = build_wire_box(v(0.0, 0.0, 0.0), v(1.0, 2.0, 3.0), rgba(1, 2, 3, 4), f(0.5));
    assert_eq!(edges.len(), 12);
    assert_eq!((edges[0].start, edges[0].end), (v(0.0, 0.0, 0.0), v(1.0, 0.0, 0.0)));
    assert_eq!((edges[11].start, edges[11].end), (v(0.0, 2.0, 0.0), v(0.0, 2.0, 3.0)));
    assert!(edges.iter().all(|e| e.color == rgba(1, 2, 3, 4) && num(e.width) == 0.5));
}

#[test]
fn the_grid() {
    let lines = build_grid(&native(), 100, 20);
    assert_eq!(lines.len(), 101 + 21);
    assert_eq!((lines[7].start, lines[7].end), (v(7.0, 0.0, 0.0), v(7.0, 20.0, 0.0)));
    assert_eq!((lines[102].start, lines[102].end), (v(0.0, 1.0, 0.0), v(100.0, 1.0, 0.0)));
    assert_eq!((lines[0].color, num(lines[0].width)), (rgba(0x44, 0x44, 0x66, 0xff), 0.3));
    assert_eq!((lines[50].color, num(lines[50].width)), (rgba(0x33, 0x33, 0x55, 0xcc), 0.3 * 0.8));
    assert_eq!((lines[10].color, num(lines[10].width)), (rgba(0x20, 0x20, 0x30, 0xaa), 0.15));
    assert_eq!((lines[11].color, num(lines[11].width)), (rgba(0x10, 0x10, 0x18, 0x66), 0.075));
}

#[test]
fn the_axes() {
    let lines = build_axes(&native(), f(200.0));
    assert_eq!(lines.len(), 9 + 2 + 3 + 3 + 2 + 3);
    assert_eq!((lines[0].start, lines[0].end), (v(0.0, 0.0, 0.05), v(30.0, 0.0, 0.05)));
    assert_eq!(lines[1].end, v(26.0, 4.0 * 0.6, 0.05));
    assert_eq!((lines[3].start, lines[3].end), (v(34.0, -3.0, 0.05), v(40.0, 3.0, 0.05)));
    assert_eq!((lines[14].start, lines[14].end), (v(-3.0, 0.0, 27.0), v(2.0, 0.0, 27.0)));
    assert_eq!(lines[17].start, v(185.0, -15.0, 0.05));
    assert_eq!(lines[17].color, rgba(0xff, 0x55, 0x55, 0x88));
    assert_eq!(build_axes(&native(), f(0.0))[17].start, v(50.0, -15.0, 0.05));
}

#[test]
fn the_gantry() {
    let low = build_gantry(&native(), v(1.0, 2.0, 0.5), f(30.0));
    assert_eq!(low.len(), 9);
    let high = build_gantry(&native(), v(1.0, 2.0, -3.0), f(30.0));
    assert_eq!(high.len(), 10);
    assert_eq!((high[0].start, high[0].end), (v(1.0, 2.0, 30.0), v(1.0, 2.0, 5.0)));
    assert_eq!((high[1].start, high[1].end), (v(-2.0, 2.0, 5.0), v(1.0, 2.0, -3.0)));
    assert_eq!((high[5].start, high[5].end), (v(1.0, 2.0, -3.0), v(1.0, 2.0, 0.0)));
    assert_eq!((high[6].start, high[6].end), (v(-3.0, 2.0, -3.0), v(5.0, 2.0, -3.0)));
    assert_eq!((high[9].start, high[9].end), (v(1.0, -1.0, 0.0), v(1.0, 5.0, 0.0)));
    assert_eq!(high[9].color, rgba(0x00, 0xff, 0xff, 0x33));
}

#[test]
fn the_toolpath() {
    let a = native();
    let path = vec![
        seg(v(0.0, 0.0, 0.0), v(1.0, 0.0, 0.0), true, 0),
        seg(v(1.0, 0.0, 0.0), v(1.0, 0.0, -2.0), false, 1),
        seg(v(1.0, 0.0, -2.0), v(2.0, 0.0, -2.0), false, 2),
        seg(v(2.0, 0.0, -2.0), v(2.0, 0.0, 0.0), false, 3),
    ];
    let strokes = build_toolpath(
        &a,
        &path,
        &[false, true],
        &[1, 1, 3],
        v(0.0, 0.0, -2.0),
        v(2.0, 0.0, 0.0),
        true,
    );
    assert_eq!(strokes.len(), 4);
    assert_eq!((strokes[0].color, num(strokes[0].width)), (rgba(0xff, 0x88, 0x00, 0xff), 0.15));
    assert_eq!((strokes[1].color, num(strokes[1].width)), (rgba(0xff, 0x22, 0x22, 0xff), 0.5));
    assert_eq!(
        (strokes[2].color, num(strokes[2].width)),
        (rgba(0xff, 0x99, 0x22, 0xff), 0.3 + 2.0 * 0.08)
    );
    assert_eq!((strokes[3].color, num(strokes[3].width)), (rgba(0x00, 0xff, 0x88, 0xff), 0.3));
    let cold = build_toolpath(&a, &path, &[], &[9, 9, 9, 9], v(0.0, 0.0, 0.0), v(0.0, 0.0, 0.0), false);
    assert_eq!(cold[2].color, rgba(0x00, 0xff, 0x88, 0xff));
    let hot = build_toolpath(&a, &path, &[], &[999], v(0.0, 0.0, 0.0), v(0.0, 0.0, 0.0), true);
    assert_eq!(num(hot[0].width), 0.9);
    assert_eq!(heatmap_color(2), rgba(0xff, 0xdd, 0x33, 0xff));
    assert_eq!(heatmap_color(5), rgba(0xff, 0x22, 0x66, 0xff));
}

#[test]
fn colours_by_depth() {
    let a = native();
    assert_eq!(depth_color(&a, f(-2.0), f(-2.0), f(0.0)), rgba(0, 68, 255, 255));
    assert_eq!(depth_color(&a, f(-1.0), f(-2.0), f(0.0)), rgba(0, 161, 195, 255));
    assert_eq!(depth_color(&a, f(0.0), f(0.0), f(0.0)), rgba(0, 255, 0x88, 255));
    assert_eq!(material_color(&a, f(0.02), f(0.02), f(-1.0)), rgba(0xc8, 0x96, 0x3e, 0xc0));
    assert_eq!(material_color(&a, f(-1.0), f(0.02), f(-1.0)), rgba(85, 34, 136, 0xee));
}

#[test]
fn the_trail_fades() {
    let a = native();
    let points = [v(0.0, 0.0, 0.0), v(1.0, 0.0, 0.0), v(1.0, 1.0, 0.0), v(0.0, 0.0, 2.0)];
    let trail = build_trail(&a, &points);
    assert_eq!(trail.len(), 3);
    assert_eq!((trail[1].start, trail[1].end), (points[1], points[2]));
    assert_eq!(trail[0].color.a, 87);
    assert_eq!(trail[2].color.a, 199);
    assert!(build_trail(&a, &points[..1]).is_empty());
    assert!(build_trail(&a, &[]).is_empty());
}

#[test]
fn probed_points() {
    let a = native();
    let strokes = build_probe_points(&a, &preview()).unwrap();
    assert_eq!(strokes.len(), 3 + 3 + 3 + 2);
    assert_eq!(strokes[0].color, rgba(0x00, 0xff, 0x88, 0xff));
    assert_eq!((strokes[0].start, strokes[0].end), (v(-1.5, 0.0, 1.0), v(1.5, 0.0, 1.0)));
    assert_eq!((strokes[2].start.z, strokes[2].end.z), (f(0.5), f(2.5)));
    assert_eq!(strokes[3].color, rgba(0xff, 0xaa, 0x00, 0xcc));
    assert_eq!(strokes[6].color, rgba(0x00, 0xcc, 0xff, 0xff));
    assert_eq!(strokes[6].start, v(-2.5, 10.0, 0.0));
    assert_eq!(strokes[9].color, rgba(0xff, 0x33, 0x33, 0xff));
    assert_eq!((strokes[9].start, strokes[9].end), (v(8.5, 8.5, 0.0), v(11.5, 11.5, 0.0)));
    assert!(build_probe_points(&a, &ProbePreview { grid_x: 1, ..preview() }).is_none());
    let flat = ProbePreview { bbox_max: (f(10.0), f(0.0)), ..preview() };
    assert!(build_probe_points(&a, &flat).is_none());
}

#[test]
fn the_stock() {
    let a = native();
    let mut field = MaterialField::new(&a, v(0.0, 0.0, 0.0), v(0.0, 0.0, 0.0), f(1.0));
    field.nx = 3;
    field.ny = 2;
    field.heights.truncate(6);
    field.heights[4] = f(-1.0);
    let mesh = build_material(&a, &field);
    assert_eq!((mesh.positions.len(), mesh.colors.len()), (6, 6));
    assert_eq!(num(mesh.positions[4].x), -1.0 + 1.5 * 0.35);
    assert_eq!(num(mesh.positions[4].z), -1.0);
    assert_eq!(mesh.colors[0], rgba(0xc8, 0x96, 0x3e, 0xc0));
    assert_eq!(mesh.indices, [0, 3, 4, 0, 4, 1, 1, 4, 5, 1, 5, 2]);
}

#[test]
fn only_changes_are_drawn() {
    let m = MachineState::default();
    let j = JobState::default();
    let mut scene = Scene::new();
    let first = update(&mut scene, v(0.0, 0.0, 0.0), &m, &j, 0);
    assert_eq!(count(&first.gantry), Some(9));
    assert!(matches!(first.trail, Change::Keep) && matches!(first.toolpath, Change::Keep));
    let again = update(&mut scene, v(0.0, 0.0, 0.0), &m, &j, 0);
    assert!(matches!(again.gantry, Change::Keep) && matches!(again.machine_box, Change::Keep));
    assert!(matches!(again.probe_points, Change::Keep) && !again.material);
    let moved = update(&mut scene, v(1.0, 0.0, 0.0), &m, &j, 0);
    assert!(matches!(moved.trail, Change::Keep));
    assert_eq!(count(&moved.gantry), Some(9));
    let further = update(&mut scene, v(2.0, 0.0, 0.0), &m, &j, 0);
    assert_eq!(count(&further.trail), Some(1));
    let reset = update(&mut scene, v(3.0, 0.0, 0.0), &m, &j, 1);
    assert!(matches!(reset.trail, Change::Remove) && matches!(reset.gantry, Change::Keep));
    assert_eq!(scene.trail_points, [v(3.0, 0.0, 0.0)]);
}

#[test]
fn jobs_and_machines_are_drawn() {
    let mut m = MachineState::default();
    let mut j = JobState {
        segments: Arc::new(vec![seg(v(0.0, 0.0, 0.0), v(1.0, 1.0, 0.0), false, 0)]),
        version: 1,
        ..Default::default()
    };
    let mut scene = Scene::new();
    let r = update(&mut scene, v(0.0, 0.0, 0.0), &m, &j, 0);
    assert_eq!((count(&r.toolpath), count(&r.bounds_box)), (Some(1), Some(12)));
    j.segments = Arc::new(vec![]);
    j.version = 2;
    m.connected = true;
    m.wco = v(0.0, 0.0, 10.0);
    let r = update(&mut scene, v(0.0, 0.0, 0.0), &m, &j, 0);
    assert!(matches!(r.toolpath, Change::Remove) && matches!(r.bounds_box, Change::Remove));
    match r.machine_box {
        Change::Replace(edges) => {
            assert_eq!((edges[0].start, edges[6].start), (v(0.0, 0.0, -50.0), v(150.0, 110.0, -10.0)))
        }
        _ => panic!("no box"),
    }
    match r.gantry {
        Change::Replace(strokes) => assert_eq!(strokes[0].start.z, f(-10.0)),
        _ => panic!("no gantry"),
    }
    m.connected = false;
    let r = update(&mut scene, v(0.0, 0.0, 0.0), &m, &j, 0);
    assert!(matches!(r.machine_box, Change::Remove));
}

#[test]
fn previews_and_stock_are_followed() {
    let a = native();
    let mut scene = Scene::new();
    assert_eq!(count(&scene.update_probe(&a, Some(preview()))), Some(11));
    assert!(matches!(scene.update_probe(&a, Some(preview())), Change::Keep));
    let other = ProbePreview { current_index: None, ..preview() };
    assert_eq!(count(&scene.update_probe(&a, Some(other))), Some(11));
    let thin = ProbePreview { grid_y: 1, ..preview() };
    assert!(matches!(scene.update_probe(&a, Some(thin)), Change::Remove));
    assert!(matches!(scene.update_probe(&a, None), Change::Remove));
    assert!(matches!(scene.update_probe(&a, None), Change::Keep));
    assert!(scene.update_material(Some(1)));
    assert!(!scene.update_material(Some(1)));
    assert!(scene.update_material(None));
}

#[test]
fn the_trail_keeps_the_latest_points() {
    let a = native();
    let mut scene = Scene::new();
    for i in 1..5100 {
        scene.follow(&a, v(i as f32, 0.0, 0.0), 0);
    }
    assert_eq!(scene.trail_points.len(), 5000);
    assert_eq!(scene.trail_points[0], v(100.0, 0.0, 0.0));
}

#[test]
fn layers_in_order() {
    let all = SceneVisibility::default();
    assert_eq!(all.layers().len(), 9);
    assert_eq!(all.layers()[2], Layer::Material);
    let few = SceneVisibility { grid: false, material: false, gantry: false, ..all };
    assert_eq!(
        few.layers(),
        [
            Layer::Triad,
            Layer::MachineBox,
            Layer::Toolpath,
            Layer::BoundsBox,
            Layer::ProbePoints,
            Layer::Trail
        ]
    );
}
