//! What is drawn of the machine and the job, and what of it has changed.
use vstd::prelude::*;
use crate::arith::{
    minus, plus, Arithmetic, Scalar, HALF,
};
use crate::grbl::heightmap::grid_point;
use crate::grbl::passes::EPSILON;
use crate::grbl::state::{origin, JobState, MachineState, Vec3};
use crate::material::{middle, MaterialField};
use crate::ui::color::{rgba, Color};
use crate::ui::editor::marked;
use crate::ui::strokes::{
    box_strokes, build_gantry, build_toolpath, build_trail, build_wire_box, gantry_strokes,
    material_color, num, path_strokes, stroke, trail_strokes, v3, Stroke, GRID_W, LINE_W,
    ONE_AND_HALF, TWO_AND_HALF,
};

verus! {

/// The most points of the trail.
pub const TRAIL_POINTS: usize = 5000;

/// The travels of a machine that has not told them, 150, 110 and 40.
pub const TRAVEL_X: u32 = 0x4316_0000;

pub const TRAVEL_Y: u32 = 0x42dc_0000;

pub const TRAVEL_Z: u32 = 0x4220_0000;

/// The height of the spindle over work whose offset is unknown, 30.
pub const CLEARANCE: u32 = 0x41f0_0000;

/// The offset that counts as none, 0.01.
pub const SMALL_OFFSET: u32 = 0x3c23_d70a;

/// A grid of probed points.
#[derive(Debug)]
pub struct ProbePreview {
    pub bbox_min: (Scalar, Scalar),
    pub bbox_max: (Scalar, Scalar),
    pub grid_x: u32,
    pub grid_y: u32,
    pub samples: Option<Vec<Option<Scalar>>>,
    pub current_index: Option<usize>,
    pub skipped: Vec<bool>,
}

/// Which layers are shown.
#[derive(Clone, Copy, Debug, PartialEq, Eq, Structural)]
pub struct SceneVisibility {
    pub grid: bool,
    pub triad: bool,
    pub machine_box: bool,
    pub toolpath: bool,
    pub bounds_box: bool,
    pub probe_points: bool,
    pub trail: bool,
    pub gantry: bool,
    pub material: bool,
}

impl Default for SceneVisibility {
    fn default() -> (v: SceneVisibility)
        ensures
            v == (SceneVisibility {
                grid: true,
                triad: true,
                machine_box: true,
                toolpath: true,
                bounds_box: true,
                probe_points: true,
                trail: true,
                gantry: true,
                material: true,
            }),
    {
        SceneVisibility {
            grid: true,
            triad: true,
            machine_box: true,
            toolpath: true,
            bounds_box: true,
            probe_points: true,
            trail: true,
            gantry: true,
            material: true,
        }
    }
}

/// The layers of the picture.
#[derive(Clone, Copy, Debug, PartialEq, Eq, Structural)]
pub enum Layer {
    Grid,
    Triad,
    Material,
    MachineBox,
    Toolpath,
    BoundsBox,
    ProbePoints,
    Trail,
    Gantry,
}

impl SceneVisibility {
    pub open spec fn shows(self, layer: Layer) -> bool {
        match layer {
            Layer::Grid => self.grid,
            Layer::Triad => self.triad,
            Layer::Material => self.material,
            Layer::MachineBox => self.machine_box,
            Layer::Toolpath => self.toolpath,
            Layer::BoundsBox => self.bounds_box,
            Layer::ProbePoints => self.probe_points,
            Layer::Trail => self.trail,
            Layer::Gantry => self.gantry,
        }
    }

    /// The layers that are shown, in the order in which they are drawn.
    pub fn layers(self) -> (out: Vec<Layer>)
        ensures
            out@ == seq![
                Layer::Grid,
                Layer::Triad,
                Layer::Material,
                Layer::MachineBox,
                Layer::Toolpath,
                Layer::BoundsBox,
                Layer::ProbePoints,
                Layer::Trail,
                Layer::Gantry,
            ].filter(|layer: Layer| self.shows(layer)),
    {
        let mut all: Vec<Layer> = Vec::new();
        all.push(Layer::Grid);
        all.push(Layer::Triad);
        all.push(Layer::Material);
        all.push(Layer::MachineBox);
        all.push(Layer::Toolpath);
        all.push(Layer::BoundsBox);
        all.push(Layer::ProbePoints);
        all.push(Layer::Trail);
        all.push(Layer::Gantry);
        let ghost order = seq![
            Layer::Grid,
            Layer::Triad,
            Layer::Material,
            Layer::MachineBox,
            Layer::Toolpath,
            Layer::BoundsBox,
            Layer::ProbePoints,
            Layer::Trail,
            Layer::Gantry,
        ];
        assert(all@ =~= order);
        let ghost test = |layer: Layer| self.shows(layer);
        let mut out: Vec<Layer> = Vec::new();
        proof {
            reveal(Seq::filter);
            assert(all@.take(0) == Seq::<Layer>::empty());
        }
        for i in 0..all.len()
            invariant
                test == (|layer: Layer| self.shows(layer)),
                out@ == all@.take(i as int).filter(test),
        {
            proof {
                reveal(Seq::filter);
                assert(all@.take(i + 1).drop_last() == all@.take(i as int));
            }
            let layer = all[i];
            let shown = match layer {
                Layer::Grid => self.grid,
                Layer::Triad => self.triad,
                Layer::Material => self.material,
                Layer::MachineBox => self.machine_box,
                Layer::Toolpath => self.toolpath,
                Layer::BoundsBox => self.bounds_box,
                Layer::ProbePoints => self.probe_points,
                Layer::Trail => self.trail,
                Layer::Gantry => self.gantry,
            };
            if shown {
                out.push(layer);
            }
        }
        assert(all@.take(all.len() as int) == all@);
        out
    }
}

impl ProbePreview {
    /// What is known of point `i`.
    pub open spec fn sample(&self, i: int) -> Option<Scalar> {
        match self.samples {
            Some(s) => if i < s@.len() {
                s@[i]
            } else {
                None
            },
            None => None,
        }
    }

    /// The samples, none where nothing is known.
    pub open spec fn known(&self) -> Seq<Option<Scalar>> {
        match self.samples {
            Some(s) => s@,
            None => Seq::empty(),
        }
    }
}

/// The marks of point `i`: a cross on its side if it is skipped, else an upright one with a
/// pole, coloured by what is known of the point.
pub open spec fn point_strokes<A: Arithmetic>(a: &A, p: &ProbePreview, i: int) -> Seq<Stroke> {
    let (x, y) = grid_point(a, p.bbox_min, p.bbox_max, p.grid_x, p.grid_y, i as usize);
    let active = p.current_index == Some(i as usize);
    let z = match p.sample(i) {
        Some(z) => z,
        None => num(0),
    };
    let r = if active {
        num(TWO_AND_HALF)
    } else {
        num(ONE_AND_HALF)
    };
    let (left, right) = (minus(a, x, r), plus(a, x, r));
    let (front, back) = (minus(a, y, r), plus(a, y, r));
    if marked(p.skipped@, i) {
        let skipped = rgba(0xff, 0x33, 0x33, 0xff);
        seq![
            stroke(v3(left, front, z), v3(right, back, z), skipped, num(LINE_W)),
            stroke(v3(left, back, z), v3(right, front, z), skipped, num(LINE_W)),
        ]
    } else {
        let color = if active {
            rgba(0x00, 0xcc, 0xff, 0xff)
        } else if p.sample(i) is Some {
            rgba(0x00, 0xff, 0x88, 0xff)
        } else {
            rgba(0xff, 0xaa, 0x00, 0xcc)
        };
        seq![
            stroke(v3(left, y, z), v3(right, y, z), color, num(LINE_W)),
            stroke(v3(x, front, z), v3(x, back, z), color, num(LINE_W)),
            stroke(
                v3(x, y, minus(a, z, num(HALF))),
                v3(x, y, plus(a, z, num(ONE_AND_HALF))),
                color,
                num(GRID_W),
            ),
        ]
    }
}

/// The marks of the first `n` points.
pub open spec fn points_strokes<A: Arithmetic>(a: &A, p: &ProbePreview, n: int) -> Seq<Stroke>
    decreases n,
{
    if n <= 0 {
        Seq::empty()
    } else {
        points_strokes(a, p, n - 1) + point_strokes(a, p, n - 1)
    }
}

/// Whether there is a grid to draw.
pub open spec fn drawable(p: &ProbePreview) -> bool {
    p.grid_x >= 2 && p.grid_y >= 2 && !p.bbox_max.0.at_most(p.bbox_min.0)
        && !p.bbox_max.1.at_most(p.bbox_min.1)
}

fn push_point<A: Arithmetic>(a: &A, p: &ProbePreview, i: usize, out: &mut Vec<Stroke>)
    requires
        a.lawful(),
        p.grid_x >= 1,
        p.grid_y >= 1,
    ensures
        final(out)@ == old(out)@ + point_strokes(a, p, i as int),
{
    let ghost before = out@;
    let (x, y) = grid_point(a, p.bbox_min, p.bbox_max, p.grid_x, p.grid_y, i);
    let active = match p.current_index {
        Some(k) => k == i,
        None => false,
    };
    let sample: Option<Scalar> = match &p.samples {
        Some(s) => if i < s.len() {
            s[i]
        } else {
            None
        },
        None => None,
    };
    let z = match sample {
        Some(z) => z,
        None => num(0),
    };
    let r = if active {
        num(TWO_AND_HALF)
    } else {
        num(ONE_AND_HALF)
    };
    let left = minus(a, x, r);
    let right = plus(a, x, r);
    let front = minus(a, y, r);
    let back = plus(a, y, r);
    if i < p.skipped.len() && p.skipped[i] {
        let skipped = rgba(0xff, 0x33, 0x33, 0xff);
        out.push(stroke(v3(left, front, z), v3(right, back, z), skipped, num(LINE_W)));
        out.push(stroke(v3(left, back, z), v3(right, front, z), skipped, num(LINE_W)));
    } else {
        let color = if active {
            rgba(0x00, 0xcc, 0xff, 0xff)
        } else if sample.is_some() {
            rgba(0x00, 0xff, 0x88, 0xff)
        } else {
            rgba(0xff, 0xaa, 0x00, 0xcc)
        };
        out.push(stroke(v3(left, y, z), v3(right, y, z), color, num(LINE_W)));
        out.push(stroke(v3(x, front, z), v3(x, back, z), color, num(LINE_W)));
        out.push(
            stroke(
                v3(x, y, minus(a, z, num(HALF))),
                v3(x, y, plus(a, z, num(ONE_AND_HALF))),
                color,
                num(GRID_W),
            ),
        );
    }
    assert(out@ =~= before + point_strokes(a, p, i as int));
}

pub fn build_probe_points<A: Arithmetic>(a: &A, p: &ProbePreview) -> (out: Option<Vec<Stroke>>)
    requires
        a.lawful(),
        p.grid_x * p.grid_y <= usize::MAX,
    ensures
        match out {
            Some(s) => drawable(p) && s@ == points_strokes(a, p, p.grid_x * p.grid_y),
            None => !drawable(p),
        },
{
    if p.grid_x < 2 || p.grid_y < 2 {
        return None;
    }
    if p.bbox_max.0.le(p.bbox_min.0) || p.bbox_max.1.le(p.bbox_min.1) {
        return None;
    }
    assert(0 <= p.grid_x * p.grid_y) by (nonlinear_arith)
        requires
            p.grid_x >= 0,
            p.grid_y >= 0,
    ;
    let total: usize = p.grid_x as usize * p.grid_y as usize;
    let mut out: Vec<Stroke> = Vec::new();
    for i in 0..total
        invariant
            a.lawful(),
            p.grid_x >= 1,
            p.grid_y >= 1,
            out@ == points_strokes(a, p, i as int),
    {
        push_point(a, p, i, &mut out);
    }
    Some(out)
}

/// The surface of the stock: a point with a colour in the middle of each cell, and two triangles
/// between each four neighbours.
pub struct MaterialMesh {
    pub positions: Vec<Vec3>,
    pub colors: Vec<Color>,
    pub indices: Vec<u32>,
}

/// The point of cell `k`.
pub open spec fn cell_point<A: Arithmetic>(a: &A, f: &MaterialField, k: int) -> Vec3 {
    Vec3 {
        x: middle(a, f.bbox_min_x, f.res, (k % (f.nx as int)) as usize),
        y: middle(a, f.bbox_min_y, f.res, (k / (f.nx as int)) as usize),
        z: f.heights@[k],
    }
}

/// The corners of the two triangles behind the cell in column `ix` and row `iy`.
pub open spec fn quad(nx: int, ix: int, iy: int) -> Seq<u32> {
    let p = (iy * nx + ix) as u32;
    let q = (iy * nx + ix + nx) as u32;
    seq![p, q, (q + 1) as u32, p, (q + 1) as u32, (p + 1) as u32]
}

/// The corners of the triangles in the first `ix` columns of row `iy`.
pub open spec fn row_quads(nx: int, iy: int, ix: int) -> Seq<u32>
    decreases ix,
{
    if ix <= 0 {
        Seq::empty()
    } else {
        row_quads(nx, iy, ix - 1) + quad(nx, ix - 1, iy)
    }
}

/// The corners of the triangles in the first `iy` rows.
pub open spec fn all_quads(nx: int, iy: int) -> Seq<u32>
    decreases iy,
{
    if iy <= 0 {
        Seq::empty()
    } else {
        all_quads(nx, iy - 1) + row_quads(nx, iy - 1, nx - 1)
    }
}

pub fn build_material<A: Arithmetic>(a: &A, f: &MaterialField) -> (mesh: MaterialMesh)
    requires
        a.lawful(),
        f.wf(),
        f.nx * f.ny <= u32::MAX,
    ensures
        mesh.positions@ == Seq::new(f.heights@.len(), |k: int| cell_point(a, f, k)),
        mesh.colors@ == Seq::new(
            f.heights@.len(),
            |k: int| material_color(a, f.heights@[k], f.z_top, f.z_floor),
        ),
        mesh.indices@ == all_quads(f.nx as int, f.ny - 1),
{
    let nx: usize = f.nx;
    let count: usize = f.heights.len();
    let mut positions: Vec<Vec3> = Vec::new();
    let mut colors: Vec<Color> = Vec::new();
    for k in 0..count
        invariant
            a.lawful(),
            nx == f.nx,
            nx > 0,
            count == f.heights@.len(),
            positions@ == Seq::new(k as nat, |j: int| cell_point(a, f, j)),
            colors@ == Seq::new(
                k as nat,
                |j: int| material_color(a, f.heights@[j], f.z_top, f.z_floor),
            ),
    {
        let z = f.heights[k];
        positions.push(
            Vec3 {
                x: middle(a, f.bbox_min_x, f.res, k % nx),
                y: middle(a, f.bbox_min_y, f.res, k / nx),
                z,
            },
        );
        colors.push(material_color(a, z, f.z_top, f.z_floor));
        assert(positions@ == Seq::new((k + 1) as nat, |j: int| cell_point(a, f, j)));
        assert(colors@ == Seq::new(
            (k + 1) as nat,
            |j: int| material_color(a, f.heights@[j], f.z_top, f.z_floor),
        ));
    }
    let mut indices: Vec<u32> = Vec::new();
    let mut iy: usize = 0;
    while f.ny > 0 && iy < f.ny - 1
        invariant
            f.wf(),
            nx == f.nx,
            f.nx * f.ny <= u32::MAX,
            f.ny > 0 ==> iy <= f.ny - 1,
            f.ny == 0 ==> iy == 0,
            indices@ == all_quads(nx as int, iy as int),
        decreases f.ny - iy,
    {
        let ghost rows = indices@;
        assert(0 <= iy * nx && iy * nx + nx + nx <= f.nx * f.ny) by (nonlinear_arith)
            requires
                iy + 2 <= f.ny,
                nx == f.nx,
                iy >= 0,
                nx >= 0,
        ;
        assert(rows + row_quads(nx as int, iy as int, 0) == rows);
        let mut ix: usize = 0;
        while ix < nx - 1
            invariant
                nx > 0,
                ix <= nx - 1,
                0 <= iy * nx,
                iy * nx + nx + nx <= u32::MAX,
                indices@ == rows + row_quads(nx as int, iy as int, ix as int),
            decreases nx - ix,
        {
            let p: u32 = (iy * nx + ix) as u32;
            let q: u32 = (iy * nx + ix + nx) as u32;
            let ghost before = indices@;
            indices.push(p);
            indices.push(q);
            indices.push(q + 1);
            indices.push(p);
            indices.push(q + 1);
            indices.push(p + 1);
            assert(indices@ =~= before + quad(nx as int, ix as int, iy as int));
            assert(indices@ =~= rows + row_quads(nx as int, iy as int, ix + 1));
            ix = ix + 1;
        }
        iy = iy + 1;
    }
    MaterialMesh { positions, colors, indices }
}

/// What becomes of a layer.
pub enum Change {
    Keep,
    Remove,
    Replace(Vec<Stroke>),
}

/// What is to become of a layer.
pub open spec fn is_change(c: Change, touched: bool, strokes: Option<Seq<Stroke>>) -> bool {
    if !touched {
        c is Keep
    } else {
        match strokes {
            Some(s) => c matches Change::Replace(v) && v@ == s,
            None => c is Remove,
        }
    }
}

/// What is to be drawn anew.
pub struct Redraw {
    pub trail: Change,
    pub gantry: Change,
    pub toolpath: Change,
    pub bounds_box: Change,
    pub machine_box: Change,
    pub probe_points: Change,
    /// Whether the stock has changed.
    pub material: bool,
}

/// What was drawn last.
pub struct Scene {
    pub trail_points: Vec<Vec3>,
    pub trail_dirty: bool,
    pub last_pos: Vec3,
    pub has_gantry: bool,
    pub last_z_clearance: Scalar,
    pub last_version: usize,
    pub last_connected: bool,
    pub last_wco: Vec3,
    pub last_max_travel: Vec3,
    pub last_show_heatmap: bool,
    pub last_probe: ProbePreview,
    pub last_material_version: Option<u32>,
    pub last_trail_reset: u64,
}

/// Whether two samples are equal numbers, or both missing.
pub open spec fn same_sample(x: Option<Scalar>, y: Option<Scalar>) -> bool {
    match (x, y) {
        (Some(p), Some(q)) => p.equals(q),
        (None, None) => true,
        _ => false,
    }
}

/// Whether two previews look the same.
pub open spec fn same_preview(p: &ProbePreview, q: &ProbePreview) -> bool {
    &&& p.bbox_min.0.equals(q.bbox_min.0) && p.bbox_min.1.equals(q.bbox_min.1)
    &&& p.bbox_max.0.equals(q.bbox_max.0) && p.bbox_max.1.equals(q.bbox_max.1)
    &&& p.grid_x == q.grid_x && p.grid_y == q.grid_y
    &&& p.known().len() == q.known().len()
    &&& forall|i: int|
        0 <= i < p.known().len() ==> same_sample(#[trigger] p.known()[i], q.known()[i])
    &&& p.current_index == q.current_index
    &&& p.skipped@ == q.skipped@
}

fn known_len(p: &ProbePreview) -> (n: usize)
    ensures
        n == p.known().len(),
{
    match &p.samples {
        Some(s) => s.len(),
        None => 0,
    }
}

fn known_at(p: &ProbePreview, i: usize) -> (s: Option<Scalar>)
    requires
        i < p.known().len(),
    ensures
        s == p.known()[i as int],
{
    match &p.samples {
        Some(s) => s[i],
        None => None,
    }
}

fn previews_equal(p: &ProbePreview, q: &ProbePreview) -> (yes: bool)
    ensures
        yes == same_preview(p, q),
{
    let indices = match (p.current_index, q.current_index) {
        (Some(i), Some(j)) => i == j,
        (None, None) => true,
        _ => false,
    };
    if !(p.bbox_min.0.same(q.bbox_min.0) && p.bbox_min.1.same(q.bbox_min.1) && p.bbox_max.0.same(
        q.bbox_max.0,
    ) && p.bbox_max.1.same(q.bbox_max.1) && p.grid_x == q.grid_x && p.grid_y == q.grid_y
        && indices) {
        return false;
    }
    let n = known_len(p);
    if n != known_len(q) || p.skipped.len() != q.skipped.len() {
        return false;
    }
    for i in 0..n
        invariant
            n == p.known().len(),
            n == q.known().len(),
            forall|k: int|
                0 <= k < i ==> same_sample(#[trigger] p.known()[k], q.known()[k]),
    {
        let same = match (known_at(p, i), known_at(q, i)) {
            (Some(x), Some(y)) => x.same(y),
            (None, None) => true,
            _ => false,
        };
        if !same {
            assert(!same_sample(p.known()[i as int], q.known()[i as int]));
            return false;
        }
    }
    for i in 0..p.skipped.len()
        invariant
            p.skipped@.len() == q.skipped@.len(),
            forall|k: int| 0 <= k < i ==> p.skipped@[k] == q.skipped@[k],
    {
        if p.skipped[i] != q.skipped[i] {
            return false;
        }
    }
    assert(p.skipped@ == q.skipped@);
    true
}

/// A preview of nothing.
pub open spec fn is_no_preview(p: &ProbePreview) -> bool {
    &&& p.bbox_min == (num(0), num(0))
    &&& p.bbox_max == (num(0), num(0))
    &&& p.grid_x == 0 && p.grid_y == 0
    &&& p.known().len() == 0
    &&& p.current_index is None
    &&& p.skipped@.len() == 0
}

fn no_preview() -> (p: ProbePreview)
    ensures
        is_no_preview(&p),
{
    ProbePreview {
        bbox_min: (num(0), num(0)),
        bbox_max: (num(0), num(0)),
        grid_x: 0,
        grid_y: 0,
        samples: None,
        current_index: None,
        skipped: Vec::new(),
    }
}

/// The height of the spindle.
pub open spec fn clearance(wco: Vec3) -> Scalar {
    if num(SMALL_OFFSET).below(wco.z.absolute()) {
        wco.z.negated()
    } else {
        num(CLEARANCE)
    }
}

/// The corners of the machine's reach, in work coordinates, with usual travels for unknown ones.
pub open spec fn reach<A: Arithmetic>(a: &A, wco: Vec3, mt: Vec3) -> (Vec3, Vec3) {
    let tx = if num(0).below(mt.x) {
        mt.x
    } else {
        num(TRAVEL_X)
    };
    let ty = if num(0).below(mt.y) {
        mt.y
    } else {
        num(TRAVEL_Y)
    };
    let tz = if num(0).below(mt.z) {
        mt.z
    } else {
        num(TRAVEL_Z)
    };
    let home = v3(wco.x.negated(), wco.y.negated(), wco.z.negated());
    let far = v3(minus(a, tx, wco.x), minus(a, ty, wco.y), minus(a, tz.negated(), wco.z));
    (
        v3(home.x.lesser(far.x), home.y.lesser(far.y), home.z.lesser(far.z)),
        v3(home.x.greater(far.x), home.y.greater(far.y), home.z.greater(far.z)),
    )
}

fn reach_of<A: Arithmetic>(a: &A, wco: Vec3, mt: Vec3) -> (corners: (Vec3, Vec3))
    requires
        a.lawful(),
    ensures
        corners == reach(a, wco, mt),
{
    let tx = if num(0).lt(mt.x) {
        mt.x
    } else {
        num(TRAVEL_X)
    };
    let ty = if num(0).lt(mt.y) {
        mt.y
    } else {
        num(TRAVEL_Y)
    };
    let tz = if num(0).lt(mt.z) {
        mt.z
    } else {
        num(TRAVEL_Z)
    };
    let home = v3(wco.x.neg(), wco.y.neg(), wco.z.neg());
    let far = v3(minus(a, tx, wco.x), minus(a, ty, wco.y), minus(a, tz.neg(), wco.z));
    (
        v3(home.x.min(far.x), home.y.min(far.y), home.z.min(far.z)),
        v3(home.x.max(far.x), home.y.max(far.y), home.z.max(far.z)),
    )
}

/// The trail after the tool is seen at `p`: from there on if it is begun anew, else longer by a
/// point if the tool has moved. The oldest points go when there are too many.
pub open spec fn trail_after(points: Seq<Vec3>, last: Vec3, p: Vec3, anew: bool) -> Seq<Vec3> {
    let before = if anew {
        seq![p]
    } else {
        points
    };
    if tool_moved(last, p, anew) {
        let longer = before.push(p);
        if longer.len() > TRAIL_POINTS {
            longer.skip(longer.len() - TRAIL_POINTS)
        } else {
            longer
        }
    } else {
        before
    }
}

/// Whether the tool is elsewhere than it was seen last.
pub open spec fn tool_moved(last: Vec3, p: Vec3, anew: bool) -> bool {
    !p.equals(
        if anew {
            p
        } else {
            last
        },
    )
}

impl Scene {
    pub fn new() -> (s: Scene)
        ensures
            s.trail_points@.len() == 0,
            is_no_preview(&s.last_probe),
            s == (Scene {
                trail_points: s.trail_points,
                trail_dirty: false,
                last_pos: origin(),
                has_gantry: false,
                last_z_clearance: num(0),
                last_version: 0,
                last_connected: false,
                last_wco: origin(),
                last_max_travel: origin(),
                last_show_heatmap: true,
                last_probe: s.last_probe,
                last_material_version: None,
                last_trail_reset: 0,
            }),
    {
        Scene {
            trail_points: Vec::new(),
            trail_dirty: false,
            last_pos: Vec3::default(),
            has_gantry: false,
            last_z_clearance: num(0),
            last_version: 0,
            last_connected: false,
            last_wco: Vec3::default(),
            last_max_travel: Vec3::default(),
            last_show_heatmap: true,
            last_probe: no_preview(),
            last_material_version: None,
            last_trail_reset: 0,
        }
    }

    /// Follows the tool: the trail, and whether the tool has moved.
    pub fn follow<A: Arithmetic>(&mut self, a: &A, p: Vec3, trail_reset: u64) -> (out: (
        Change,
        bool,
    ))
        requires
            a.lawful(),
            old(self).trail_points@.len() <= TRAIL_POINTS,
        ensures
            final(self).trail_points@.len() <= TRAIL_POINTS,
            ({
                let anew = trail_reset != old(self).last_trail_reset;
                let moved = tool_moved(old(self).last_pos, p, anew);
                let points = trail_after(old(self).trail_points@, old(self).last_pos, p, anew);
                let dirty = moved || (old(self).trail_dirty && !anew);
                let redraw = dirty && points.len() >= 2;
                &&& out.1 == moved
                &&& is_change(
                    out.0,
                    anew || redraw,
                    if redraw {
                        Some(trail_strokes(a, points))
                    } else {
                        None
                    },
                )
                &&& final(self).trail_points@ == points
                &&& *final(self) == (Scene {
                    trail_points: final(self).trail_points,
                    trail_dirty: dirty && !redraw,
                    last_pos: if moved || anew {
                        p
                    } else {
                        old(self).last_pos
                    },
                    last_trail_reset: trail_reset,
                    ..*old(self)
                })
            }),
    {
        let mut change = Change::Keep;
        if trail_reset != self.last_trail_reset {
            self.last_trail_reset = trail_reset;
            self.trail_points = Vec::new();
            self.trail_points.push(p);
            assert(self.trail_points@ == seq![p]);
            self.last_pos = p;
            change = Change::Remove;
            self.trail_dirty = false;
        }
        let moved = !p.same(self.last_pos);
        if moved {
            let ghost before = self.trail_points@;
            self.trail_points.push(p);
            if self.trail_points.len() > TRAIL_POINTS {
                let oldest = self.trail_points.remove(0);
                assert(self.trail_points@ == before.push(p).skip(1));
            }
            self.last_pos = p;
            self.trail_dirty = true;
        }
        if self.trail_dirty && self.trail_points.len() >= 2 {
            change = Change::Replace(build_trail(a, self.trail_points.as_slice()));
            self.trail_dirty = false;
        }
        (change, moved)
    }

    /// The spindle and the tool, if the tool has moved or the spindle's height has changed.
    pub fn update_gantry<A: Arithmetic>(&mut self, a: &A, p: Vec3, moved: bool, wco: Vec3) -> (out:
        Change)
        requires
            a.lawful(),
        ensures
            ({
                let top = clearance(wco);
                let redraw = !old(self).has_gantry || moved || num(EPSILON).below(
                    minus(a, top, old(self).last_z_clearance).absolute(),
                );
                &&& is_change(out, redraw, Some(gantry_strokes(a, p, top)))
                &&& *final(self) == if redraw {
                    Scene { has_gantry: true, last_z_clearance: top, ..*old(self) }
                } else {
                    *old(self)
                }
            }),
    {
        let top = if num(SMALL_OFFSET).lt(wco.z.abs()) {
            wco.z.neg()
        } else {
            num(CLEARANCE)
        };
        let changed = num(EPSILON).lt(minus(a, top, self.last_z_clearance).abs());
        if !self.has_gantry || moved || changed {
            self.has_gantry = true;
            self.last_z_clearance = top;
            Change::Replace(build_gantry(a, p, top))
        } else {
            Change::Keep
        }
    }

    /// The toolpath and its bounds, if the job or the way that it is shown has changed.
    pub fn update_job<A: Arithmetic>(&mut self, a: &A, jstate: &JobState, show_heatmap: bool) -> (out:
        (Change, Change))
        requires
            a.lawful(),
        ensures
            ({
                let redraw = jstate.version != old(self).last_version || show_heatmap != old(
                    self,
                ).last_show_heatmap;
                let empty = jstate.segments@.len() == 0;
                &&& is_change(
                    out.0,
                    redraw,
                    if empty {
                        None
                    } else {
                        Some(
                            path_strokes(
                                a,
                                jstate.segments@,
                                jstate.seg_violations@,
                                jstate.seg_pass_counts@,
                                jstate.bounds_min,
                                jstate.bounds_max,
                                show_heatmap,
                            ),
                        )
                    },
                )
                &&& is_change(
                    out.1,
                    redraw,
                    if empty {
                        None
                    } else {
                        Some(
                            box_strokes(
                                jstate.bounds_min,
                                jstate.bounds_max,
                                rgba(0x55, 0x55, 0x77, 0x66),
                                num(GRID_W),
                            ),
                        )
                    },
                )
                &&& *final(self) == (Scene {
                    last_version: jstate.version,
                    last_show_heatmap: show_heatmap,
                    ..*old(self)
                })
            }),
    {
        if jstate.version == self.last_version && show_heatmap == self.last_show_heatmap {
            return (Change::Keep, Change::Keep);
        }
        self.last_version = jstate.version;
        self.last_show_heatmap = show_heatmap;
        if jstate.segments.len() == 0 {
            return (Change::Remove, Change::Remove);
        }
        (
            Change::Replace(
                build_toolpath(
                    a,
                    jstate.segments.as_slice(),
                    jstate.seg_violations.as_slice(),
                    jstate.seg_pass_counts.as_slice(),
                    jstate.bounds_min,
                    jstate.bounds_max,
                    show_heatmap,
                ),
            ),
            Change::Replace(
                build_wire_box(
                    jstate.bounds_min,
                    jstate.bounds_max,
                    rgba(0x55, 0x55, 0x77, 0x66),
                    num(GRID_W),
                ),
            ),
        )
    }

    /// The machine's reach, if what it depends on has changed.
    pub fn update_machine<A: Arithmetic>(&mut self, a: &A, mstate: &MachineState) -> (out: Change)
        requires
            a.lawful(),
        ensures
            ({
                let redraw = mstate.connected != old(self).last_connected || !mstate.wco.equals(
                    old(self).last_wco,
                ) || !mstate.max_travel.equals(old(self).last_max_travel);
                let (bmin, bmax) = reach(a, mstate.wco, mstate.max_travel);
                &&& is_change(
                    out,
                    redraw,
                    if mstate.connected {
                        Some(box_strokes(bmin, bmax, rgba(0x44, 0x77, 0xbb, 0x99), num(LINE_W)))
                    } else {
                        None
                    },
                )
                &&& *final(self) == if redraw {
                    Scene {
                        last_connected: mstate.connected,
                        last_wco: mstate.wco,
                        last_max_travel: mstate.max_travel,
                        ..*old(self)
                    }
                } else {
                    *old(self)
                }
            }),
    {
        if mstate.connected == self.last_connected && mstate.wco.same(self.last_wco)
            && mstate.max_travel.same(self.last_max_travel) {
            return Change::Keep;
        }
        self.last_connected = mstate.connected;
        self.last_wco = mstate.wco;
        self.last_max_travel = mstate.max_travel;
        if mstate.connected {
            let (bmin, bmax) = reach_of(a, mstate.wco, mstate.max_travel);
            Change::Replace(build_wire_box(bmin, bmax, rgba(0x44, 0x77, 0xbb, 0x99), num(LINE_W)))
        } else {
            Change::Remove
        }
    }

    /// The probed points, if they have changed.
    pub fn update_probe<A: Arithmetic>(&mut self, a: &A, preview: Option<ProbePreview>) -> (out: Change)
        requires
            a.lawful(),
            preview matches Some(p) ==> p.grid_x * p.grid_y <= usize::MAX,
        ensures
            match preview {
                Some(p) => {
                    let redraw = !same_preview(&p, &old(self).last_probe);
                    &&& is_change(
                        out,
                        redraw,
                        if drawable(&p) {
                            Some(points_strokes(a, &p, p.grid_x * p.grid_y))
                        } else {
                            None
                        },
                    )
                    &&& *final(self) == if redraw {
                        Scene { last_probe: p, ..*old(self) }
                    } else {
                        *old(self)
                    }
                },
                None => {
                    let now = final(self).last_probe;
                    &&& is_change(out, !looks_empty(&old(self).last_probe), None)
                    &&& looks_empty(&old(self).last_probe) ==> *final(self) == *old(self)
                    &&& !looks_empty(&old(self).last_probe) ==> is_no_preview(&now)
                        && *final(self) == (Scene { last_probe: now, ..*old(self) })
                },
            },
    {
        match preview {
            Some(p) => {
                if previews_equal(&p, &self.last_probe) {
                    return Change::Keep;
                }
                let change = match build_probe_points(a, &p) {
                    Some(strokes) => Change::Replace(strokes),
                    None => Change::Remove,
                };
                self.last_probe = p;
                change
            },
            None => {
                let nothing = no_preview();
                proof {
                    let last = self.last_probe;
                    if last.skipped@.len() == 0 {
                        assert(nothing.skipped@ =~= last.skipped@);
                    }
                    assert(same_preview(&nothing, &last) == looks_empty(&last));
                }
                if previews_equal(&nothing, &self.last_probe) {
                    return Change::Keep;
                }
                self.last_probe = nothing;
                Change::Remove
            },
        }
    }

    /// Whether the stock is to be drawn anew.
    pub fn update_material(&mut self, version: Option<u32>) -> (redraw: bool)
        ensures
            redraw == (version != old(self).last_material_version),
            *final(self) == (Scene { last_material_version: version, ..*old(self) }),
    {
        let same = match (version, self.last_material_version) {
            (Some(v), Some(w)) => v == w,
            (None, None) => true,
            _ => false,
        };
        self.last_material_version = version;
        !same
    }

    /// Takes what is to be shown now: what must be drawn anew.
    pub fn update<A: Arithmetic>(&mut self, a: &A, args: SceneUpdate<'_>) -> (out: Redraw)
        requires
            a.lawful(),
            old(self).trail_points@.len() <= TRAIL_POINTS,
            args.probe_preview matches Some(p) ==> p.grid_x * p.grid_y <= usize::MAX,
        ensures
            final(self).trail_points@.len() <= TRAIL_POINTS,
            ({
                let anew = args.trail_reset != old(self).last_trail_reset;
                let p = args.tool_pos;
                let moved = tool_moved(old(self).last_pos, p, anew);
                let points = trail_after(old(self).trail_points@, old(self).last_pos, p, anew);
                let longer = (moved || (old(self).trail_dirty && !anew)) && points.len() >= 2;
                let top = clearance(args.mstate.wco);
                let job_changed = args.jstate.version != old(self).last_version
                    || args.show_heatmap != old(self).last_show_heatmap;
                let machine_changed = args.mstate.connected != old(self).last_connected
                    || !args.mstate.wco.equals(old(self).last_wco)
                    || !args.mstate.max_travel.equals(old(self).last_max_travel);
                let (bmin, bmax) = reach(a, args.mstate.wco, args.mstate.max_travel);
                &&& final(self).trail_points@ == points
                &&& is_change(
                    out.trail,
                    anew || longer,
                    if longer {
                        Some(trail_strokes(a, points))
                    } else {
                        None
                    },
                )
                &&& is_change(
                    out.gantry,
                    !old(self).has_gantry || moved || num(EPSILON).below(
                        minus(a, top, old(self).last_z_clearance).absolute(),
                    ),
                    Some(gantry_strokes(a, p, top)),
                )
                &&& is_change(
                    out.toolpath,
                    job_changed,
                    if args.jstate.segments@.len() == 0 {
                        None
                    } else {
                        Some(
                            path_strokes(
                                a,
                                args.jstate.segments@,
                                args.jstate.seg_violations@,
                                args.jstate.seg_pass_counts@,
                                args.jstate.bounds_min,
                                args.jstate.bounds_max,
                                args.show_heatmap,
                            ),
                        )
                    },
                )
                &&& is_change(
                    out.bounds_box,
                    job_changed,
                    if args.jstate.segments@.len() == 0 {
                        None
                    } else {
                        Some(
                            box_strokes(
                                args.jstate.bounds_min,
                                args.jstate.bounds_max,
                                rgba(0x55, 0x55, 0x77, 0x66),
                                num(GRID_W),
                            ),
                        )
                    },
                )
                &&& is_change(
                    out.machine_box,
                    machine_changed,
                    if args.mstate.connected {
                        Some(box_strokes(bmin, bmax, rgba(0x44, 0x77, 0xbb, 0x99), num(LINE_W)))
                    } else {
                        None
                    },
                )
                &&& match args.probe_preview {
                    Some(q) => is_change(
                        out.probe_points,
                        !same_preview(&q, &old(self).last_probe),
                        if drawable(&q) {
                            Some(points_strokes(a, &q, q.grid_x * q.grid_y))
                        } else {
                            None
                        },
                    ),
                    None => is_change(
                        out.probe_points,
                        !looks_empty(&old(self).last_probe),
                        None,
                    ),
                }
                &&& out.material == (args.material_version != old(self).last_material_version)
                &&& match args.probe_preview {
                    Some(q) => final(self).last_probe == if same_preview(
                        &q,
                        &old(self).last_probe,
                    ) {
                        old(self).last_probe
                    } else {
                        q
                    },
                    None => if looks_empty(&old(self).last_probe) {
                        final(self).last_probe == old(self).last_probe
                    } else {
                        is_no_preview(&final(self).last_probe)
                    },
                }
                &&& *final(self) == (Scene {
                    trail_points: final(self).trail_points,
                    trail_dirty: (moved || (old(self).trail_dirty && !anew)) && !longer,
                    last_pos: if moved || anew {
                        p
                    } else {
                        old(self).last_pos
                    },
                    has_gantry: true,
                    last_z_clearance: if out.gantry is Keep {
                        old(self).last_z_clearance
                    } else {
                        top
                    },
                    last_version: args.jstate.version,
                    last_connected: args.mstate.connected,
                    last_wco: if machine_changed {
                        args.mstate.wco
                    } else {
                        old(self).last_wco
                    },
                    last_max_travel: if machine_changed {
                        args.mstate.max_travel
                    } else {
                        old(self).last_max_travel
                    },
                    last_show_heatmap: args.show_heatmap,
                    last_probe: final(self).last_probe,
                    last_material_version: args.material_version,
                    last_trail_reset: args.trail_reset,
                })
            }),
    {
        let SceneUpdate {
            tool_pos,
            mstate,
            jstate,
            show_heatmap,
            probe_preview,
            material_version,
            trail_reset,
        } = args;
        let (trail, moved) = self.follow(a, tool_pos, trail_reset);
        let gantry = self.update_gantry(a, tool_pos, moved, mstate.wco);
        let (toolpath, bounds_box) = self.update_job(a, jstate, show_heatmap);
        let machine_box = self.update_machine(a, mstate);
        let probe_points = self.update_probe(a, probe_preview);
        let material = self.update_material(material_version);
        Redraw { trail, gantry, toolpath, bounds_box, machine_box, probe_points, material }
    }
}

/// Whether a preview looks like none.
pub open spec fn looks_empty(p: &ProbePreview) -> bool {
    &&& num(0).equals(p.bbox_min.0) && num(0).equals(p.bbox_min.1)
    &&& num(0).equals(p.bbox_max.0) && num(0).equals(p.bbox_max.1)
    &&& p.grid_x == 0 && p.grid_y == 0
    &&& p.known().len() == 0
    &&& p.current_index is None
    &&& p.skipped@.len() == 0
}

/// What is to be shown.
pub struct SceneUpdate<'a> {
    pub tool_pos: Vec3,
    pub mstate: &'a MachineState,
    pub jstate: &'a JobState,
    pub show_heatmap: bool,
    pub probe_preview: Option<ProbePreview>,
    /// The version of the stock, where it is shown.
    pub material_version: Option<u32>,
    pub trail_reset: u64,
}

/// A preview that is shown twice looks the same, if its numbers are numbers.
pub proof fn lemma_same_preview(p: &ProbePreview)
    requires
        !p.bbox_min.0.nan() && !p.bbox_min.1.nan(),
        !p.bbox_max.0.nan() && !p.bbox_max.1.nan(),
        forall|i: int|
            0 <= i < p.known().len() ==> (#[trigger] p.known()[i] matches Some(z) ==> !z.nan()),
    ensures
        same_preview(p, p),
{
}

} // verus!
