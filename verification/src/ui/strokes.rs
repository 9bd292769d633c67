//! The lines and faces that make up the picture.
use vstd::prelude::*;
use crate::arith::{
    minus, over, plus, single_of, times, to_unsigned, Arithmetic, Scalar, HALF, ONE,
};
use crate::grbl::state::{Segment, Vec3};
use crate::ui::color::{rgba, Color};
use crate::ui::editor::{marked, passes_of};

verus! {

/// The width of a line, 0.3.
pub const LINE_W: u32 = 0x3e99_999a;

/// The width of a thin line, 0.15.
pub const GRID_W: u32 = 0x3e19_999a;

/// The width of a thick line, 0.5.
pub const THICK_W: u32 = 0x3f00_0000;

/// What a pass adds to the width of a line, 0.08.
pub const PASS_W: u32 = 0x3da3_d70a;

/// The widest line, as a multiple of a thick one, 1.8.
pub const WIDEST: u32 = 0x3fe6_6666;

/// 0.8
pub const POINT_EIGHT: u32 = 0x3f4c_cccd;

/// 1.5
pub const ONE_AND_HALF: u32 = 0x3fc0_0000;

/// 2.5
pub const TWO_AND_HALF: u32 = 0x4020_0000;

/// 3
pub const THREE: u32 = 0x4040_0000;

/// 4
pub const FOUR: u32 = 0x4080_0000;

/// 5
pub const FIVE: u32 = 0x40a0_0000;

/// 6
pub const SIX: u32 = 0x40c0_0000;

/// 8
pub const EIGHT: u32 = 0x4100_0000;

/// 12
pub const TWELVE: u32 = 0x4140_0000;

/// 15
pub const FIFTEEN: u32 = 0x4170_0000;

/// 18
pub const EIGHTEEN: u32 = 0x4190_0000;

/// 20
pub const TWENTY: u32 = 0x41a0_0000;

/// 22
pub const TWENTY_TWO: u32 = 0x41b0_0000;

/// 30
pub const THIRTY: u32 = 0x41f0_0000;

/// 0.6
pub const POINT_SIX: u32 = 0x3f19_999a;

/// 1.4
pub const ONE_POINT_FOUR: u32 = 0x3fb3_3333;

/// The height of flat letters, 0.05.
pub const LIFT: u32 = 0x3d4c_cccd;

/// The opacity at the old end of the trail, 32.
pub const FAINTEST: u32 = 0x4200_0000;

/// The rise of opacity along the trail, 223.
pub const FADE: u32 = 0x435f_0000;

/// The green of the deepest cut, 68.
pub const GREEN_LOW: u32 = 0x4288_0000;

/// How much greener the highest cut is, 187.
pub const GREEN_SPAN: u32 = 0x433b_0000;

/// The blue of the deepest cut, 255.
pub const BLUE_HIGH: u32 = 0x437f_0000;

/// How much less blue the highest cut is, 119.
pub const BLUE_SPAN: u32 = 0x42ee_0000;

/// How far below the top the stock counts as untouched, 0.0001.
pub const UNTOUCHED: u32 = 0x38d1_b717;

/// The least depth over which colours are spread, 0.05.
pub const LEAST_SPAN: u32 = 0x3d4c_cccd;

/// The red of stock that is hardly cut, 170.
pub const STOCK_R: u32 = 0x432a_0000;

/// How much less red the floor is, 85.
pub const STOCK_R_SPAN: u32 = 0x42aa_0000;

/// The green of stock that is hardly cut, 85.
pub const STOCK_G: u32 = 0x42aa_0000;

/// How much less green the floor is, 51.
pub const STOCK_G_SPAN: u32 = 0x424c_0000;

/// The blue of stock that is hardly cut, 34.
pub const STOCK_B: u32 = 0x4208_0000;

/// How much bluer the floor is, 102.
pub const STOCK_B_SPAN: u32 = 0x42cc_0000;

/// A straight line of the picture.
#[derive(Clone, Copy, Debug)]
pub struct Stroke {
    pub start: Vec3,
    pub end: Vec3,
    pub color: Color,
    pub width: Scalar,
}

pub open spec fn spec_stroke(start: Vec3, end: Vec3, color: Color, width: Scalar) -> Stroke {
    Stroke { start, end, color, width }
}

#[verifier::when_used_as_spec(spec_stroke)]
pub fn stroke(start: Vec3, end: Vec3, color: Color, width: Scalar) -> (s: Stroke)
    ensures
        s == spec_stroke(start, end, color, width),
{
    Stroke { start, end, color, width }
}

pub open spec fn spec_v3(x: Scalar, y: Scalar, z: Scalar) -> Vec3 {
    Vec3 { x, y, z }
}

#[verifier::when_used_as_spec(spec_v3)]
pub fn v3(x: Scalar, y: Scalar, z: Scalar) -> (v: Vec3)
    ensures
        v == spec_v3(x, y, z),
{
    Vec3 { x, y, z }
}

/// The number with these bits.
pub open spec fn spec_num(bits: u32) -> Scalar {
    Scalar { bits }
}

#[verifier::when_used_as_spec(spec_num)]
pub fn num(bits: u32) -> (x: Scalar)
    ensures
        x == spec_num(bits),
{
    Scalar { bits }
}

/// The edges of a box: around the bottom, around the top, and upwards.
pub open spec fn box_strokes(bmin: Vec3, bmax: Vec3, color: Color, width: Scalar) -> Seq<Stroke> {
    let c0 = v3(bmin.x, bmin.y, bmin.z);
    let c1 = v3(bmax.x, bmin.y, bmin.z);
    let c2 = v3(bmax.x, bmax.y, bmin.z);
    let c3 = v3(bmin.x, bmax.y, bmin.z);
    let c4 = v3(bmin.x, bmin.y, bmax.z);
    let c5 = v3(bmax.x, bmin.y, bmax.z);
    let c6 = v3(bmax.x, bmax.y, bmax.z);
    let c7 = v3(bmin.x, bmax.y, bmax.z);
    seq![
        stroke(c0, c1, color, width),
        stroke(c1, c2, color, width),
        stroke(c2, c3, color, width),
        stroke(c3, c0, color, width),
        stroke(c4, c5, color, width),
        stroke(c5, c6, color, width),
        stroke(c6, c7, color, width),
        stroke(c7, c4, color, width),
        stroke(c0, c4, color, width),
        stroke(c1, c5, color, width),
        stroke(c2, c6, color, width),
        stroke(c3, c7, color, width),
    ]
}

pub fn build_wire_box(bmin: Vec3, bmax: Vec3, color: Color, width: Scalar) -> (out: Vec<Stroke>)
    ensures
        out@ == box_strokes(bmin, bmax, color, width),
{
    let c0 = v3(bmin.x, bmin.y, bmin.z);
    let c1 = v3(bmax.x, bmin.y, bmin.z);
    let c2 = v3(bmax.x, bmax.y, bmin.z);
    let c3 = v3(bmin.x, bmax.y, bmin.z);
    let c4 = v3(bmin.x, bmin.y, bmax.z);
    let c5 = v3(bmax.x, bmin.y, bmax.z);
    let c6 = v3(bmax.x, bmax.y, bmax.z);
    let c7 = v3(bmin.x, bmax.y, bmax.z);
    let mut out: Vec<Stroke> = Vec::new();
    out.push(stroke(c0, c1, color, width));
    out.push(stroke(c1, c2, color, width));
    out.push(stroke(c2, c3, color, width));
    out.push(stroke(c3, c0, color, width));
    out.push(stroke(c4, c5, color, width));
    out.push(stroke(c5, c6, color, width));
    out.push(stroke(c6, c7, color, width));
    out.push(stroke(c7, c4, color, width));
    out.push(stroke(c0, c4, color, width));
    out.push(stroke(c1, c5, color, width));
    out.push(stroke(c2, c6, color, width));
    out.push(stroke(c3, c7, color, width));
    assert(out@ =~= box_strokes(bmin, bmax, color, width));
    out
}

/// How the line of the grid at `i` millimetres looks: those at the origin, at fifties and at tens
/// stand out.
pub open spec fn spec_grid_look<A: Arithmetic>(a: &A, i: u32) -> (Color, Scalar) {
    if i == 0 {
        (rgba(0x44, 0x44, 0x66, 0xff), num(LINE_W))
    } else if i % 50 == 0 {
        (rgba(0x33, 0x33, 0x55, 0xcc), times(a, num(LINE_W), num(POINT_EIGHT)))
    } else if i % 10 == 0 {
        (rgba(0x20, 0x20, 0x30, 0xaa), num(GRID_W))
    } else {
        (rgba(0x10, 0x10, 0x18, 0x66), times(a, num(GRID_W), num(HALF)))
    }
}

#[verifier::when_used_as_spec(spec_grid_look)]
pub fn grid_look<A: Arithmetic>(a: &A, i: u32) -> (look: (Color, Scalar))
    requires
        a.lawful(),
    ensures
        look == spec_grid_look(a, i),
{
    if i == 0 {
        (rgba(0x44, 0x44, 0x66, 0xff), num(LINE_W))
    } else if i % 50 == 0 {
        (rgba(0x33, 0x33, 0x55, 0xcc), times(a, num(LINE_W), num(POINT_EIGHT)))
    } else if i % 10 == 0 {
        (rgba(0x20, 0x20, 0x30, 0xaa), num(GRID_W))
    } else {
        (rgba(0x10, 0x10, 0x18, 0x66), times(a, num(GRID_W), num(HALF)))
    }
}

/// The line of the grid at `i` millimetres, `span` long, along one of the two axes.
pub open spec fn spec_grid_line<A: Arithmetic>(a: &A, along_x: bool, i: u32, span: u32) -> Stroke {
    let at = single_of(a, i as u64);
    let end = single_of(a, span as u64);
    let (color, width) = grid_look(a, i);
    if along_x {
        stroke(v3(num(0), at, num(0)), v3(end, at, num(0)), color, width)
    } else {
        stroke(v3(at, num(0), num(0)), v3(at, end, num(0)), color, width)
    }
}

#[verifier::when_used_as_spec(spec_grid_line)]
pub fn grid_line<A: Arithmetic>(a: &A, along_x: bool, i: u32, span: u32) -> (s: Stroke)
    requires
        a.lawful(),
    ensures
        s == spec_grid_line(a, along_x, i, span),
{
    let at = single_of(a, i as u64);
    let end = single_of(a, span as u64);
    let (color, width) = grid_look(a, i);
    if along_x {
        stroke(v3(num(0), at, num(0)), v3(end, at, num(0)), color, width)
    } else {
        stroke(v3(at, num(0), num(0)), v3(at, end, num(0)), color, width)
    }
}

/// A grid of millimetres.
pub open spec fn grid_strokes<A: Arithmetic>(a: &A, x_span: u32, y_span: u32) -> Seq<Stroke> {
    Seq::new((x_span + 1) as nat, |i: int| grid_line(a, false, i as u32, y_span)) + Seq::new(
        (y_span + 1) as nat,
        |i: int| grid_line(a, true, i as u32, x_span),
    )
}

pub fn build_grid<A: Arithmetic>(a: &A, x_span: u32, y_span: u32) -> (out: Vec<Stroke>)
    requires
        a.lawful(),
        x_span < u32::MAX,
        y_span < u32::MAX,
    ensures
        out@ == grid_strokes(a, x_span, y_span),
{
    let mut out: Vec<Stroke> = Vec::new();
    let ghost across = Seq::new((x_span + 1) as nat, |i: int| grid_line(a, false, i as u32, y_span));
    let ghost along = Seq::new((y_span + 1) as nat, |i: int| grid_line(a, true, i as u32, x_span));
    for i in 0..x_span + 1
        invariant
            a.lawful(),
            across == Seq::new(
                (x_span + 1) as nat,
                |i: int| grid_line(a, false, i as u32, y_span),
            ),
            out@ == across.take(i as int),
    {
        out.push(grid_line(a, false, i, y_span));
        assert(across.take(i + 1) == across.take(i as int).push(across[i as int]));
    }
    assert(across.take(x_span + 1) == across);
    assert(across + along.take(0) == across);
    for i in 0..y_span + 1
        invariant
            a.lawful(),
            along == Seq::new((y_span + 1) as nat, |i: int| grid_line(a, true, i as u32, x_span)),
            out@ == across + along.take(i as int),
    {
        out.push(grid_line(a, true, i, x_span));
        assert(along.take(i + 1) == along.take(i as int).push(along[i as int]));
        assert(out@ == across + along.take(i + 1));
    }
    assert(along.take(y_span + 1) == along);
    out
}

/// The strokes of a letter in a square of side one: the ends of each.
pub open spec fn letter_of(ch: char) -> Seq<(u32, u32, u32, u32)> {
    if ch == 'X' {
        seq![(0, 0, ONE, ONE), (0, ONE, ONE, 0)]
    } else if ch == 'Y' {
        seq![(0, ONE, HALF, HALF), (ONE, ONE, HALF, HALF), (HALF, HALF, HALF, 0)]
    } else if ch == 'Z' {
        seq![(0, ONE, ONE, ONE), (ONE, ONE, 0, 0), (0, 0, ONE, 0)]
    } else {
        Seq::empty()
    }
}

fn letter_strokes(ch: char) -> (out: Vec<(u32, u32, u32, u32)>)
    ensures
        out@ == letter_of(ch),
{
    let mut out: Vec<(u32, u32, u32, u32)> = Vec::new();
    if ch == 'X' {
        out.push((0, 0, ONE, ONE));
        out.push((0, ONE, ONE, 0));
    } else if ch == 'Y' {
        out.push((0, ONE, HALF, HALF));
        out.push((ONE, ONE, HALF, HALF));
        out.push((HALF, HALF, HALF, 0));
    } else if ch == 'Z' {
        out.push((0, ONE, ONE, ONE));
        out.push((ONE, ONE, 0, 0));
        out.push((0, 0, ONE, 0));
    }
    assert(out@ =~= letter_of(ch));
    out
}

/// A stroke of a letter that lies flat.
pub open spec fn spec_flat_stroke<A: Arithmetic>(
    a: &A,
    s: (u32, u32, u32, u32),
    pos: Vec3,
    size: Scalar,
    color: Color,
) -> Stroke {
    stroke(
        v3(plus(a, pos.x, times(a, num(s.0), size)), plus(a, pos.y, times(a, num(s.1), size)), pos.z),
        v3(plus(a, pos.x, times(a, num(s.2), size)), plus(a, pos.y, times(a, num(s.3), size)), pos.z),
        color,
        times(a, num(LINE_W), num(ONE_AND_HALF)),
    )
}

#[verifier::when_used_as_spec(spec_flat_stroke)]
pub fn flat_stroke<A: Arithmetic>(
    a: &A,
    s: (u32, u32, u32, u32),
    pos: Vec3,
    size: Scalar,
    color: Color,
) -> (r: Stroke)
    requires
        a.lawful(),
    ensures
        r == spec_flat_stroke(a, s, pos, size, color),
{
    stroke(
        v3(plus(a, pos.x, times(a, num(s.0), size)), plus(a, pos.y, times(a, num(s.1), size)), pos.z),
        v3(plus(a, pos.x, times(a, num(s.2), size)), plus(a, pos.y, times(a, num(s.3), size)), pos.z),
        color,
        times(a, num(LINE_W), num(ONE_AND_HALF)),
    )
}

/// A stroke of a letter that stands upright.
pub open spec fn spec_upright_stroke<A: Arithmetic>(
    a: &A,
    s: (u32, u32, u32, u32),
    pos: Vec3,
    size: Scalar,
    color: Color,
) -> Stroke {
    stroke(
        v3(plus(a, pos.x, times(a, num(s.0), size)), pos.y, plus(a, pos.z, times(a, num(s.1), size))),
        v3(plus(a, pos.x, times(a, num(s.2), size)), pos.y, plus(a, pos.z, times(a, num(s.3), size))),
        color,
        times(a, num(LINE_W), num(ONE_AND_HALF)),
    )
}

#[verifier::when_used_as_spec(spec_upright_stroke)]
pub fn upright_stroke<A: Arithmetic>(
    a: &A,
    s: (u32, u32, u32, u32),
    pos: Vec3,
    size: Scalar,
    color: Color,
) -> (r: Stroke)
    requires
        a.lawful(),
    ensures
        r == spec_upright_stroke(a, s, pos, size, color),
{
    stroke(
        v3(plus(a, pos.x, times(a, num(s.0), size)), pos.y, plus(a, pos.z, times(a, num(s.1), size))),
        v3(plus(a, pos.x, times(a, num(s.2), size)), pos.y, plus(a, pos.z, times(a, num(s.3), size))),
        color,
        times(a, num(LINE_W), num(ONE_AND_HALF)),
    )
}

/// A letter that lies flat.
pub open spec fn letter_xy<A: Arithmetic>(
    a: &A,
    ch: char,
    pos: Vec3,
    size: Scalar,
    color: Color,
) -> Seq<Stroke> {
    letter_of(ch).map_values(|s: (u32, u32, u32, u32)| flat_stroke(a, s, pos, size, color))
}

/// A letter that stands upright.
pub open spec fn letter_xz<A: Arithmetic>(
    a: &A,
    ch: char,
    pos: Vec3,
    size: Scalar,
    color: Color,
) -> Seq<Stroke> {
    letter_of(ch).map_values(|s: (u32, u32, u32, u32)| upright_stroke(a, s, pos, size, color))
}

fn draw_letter_xy<A: Arithmetic>(
    a: &A,
    out: &mut Vec<Stroke>,
    ch: char,
    pos: Vec3,
    size: Scalar,
    color: Color,
)
    requires
        a.lawful(),
    ensures
        final(out)@ == old(out)@ + letter_xy(a, ch, pos, size, color),
{
    let list = letter_strokes(ch);
    let ghost before = out@;
    let ghost all = letter_xy(a, ch, pos, size, color);
    assert(before + all.take(0) == before);
    for i in 0..list.len()
        invariant
            a.lawful(),
            list@ == letter_of(ch),
            all == letter_xy(a, ch, pos, size, color),
            out@ == before + all.take(i as int),
    {
        out.push(flat_stroke(a, list[i], pos, size, color));
        assert(all.take(i + 1) == all.take(i as int).push(all[i as int]));
        assert(out@ == before + all.take(i + 1));
    }
    assert(all.take(list.len() as int) == all);
}

fn draw_letter_xz<A: Arithmetic>(
    a: &A,
    out: &mut Vec<Stroke>,
    ch: char,
    pos: Vec3,
    size: Scalar,
    color: Color,
)
    requires
        a.lawful(),
    ensures
        final(out)@ == old(out)@ + letter_xz(a, ch, pos, size, color),
{
    let list = letter_strokes(ch);
    let ghost before = out@;
    let ghost all = letter_xz(a, ch, pos, size, color);
    assert(before + all.take(0) == before);
    for i in 0..list.len()
        invariant
            a.lawful(),
            list@ == letter_of(ch),
            all == letter_xz(a, ch, pos, size, color),
            out@ == before + all.take(i as int),
    {
        out.push(upright_stroke(a, list[i], pos, size, color));
        assert(all.take(i + 1) == all.take(i as int).push(all[i as int]));
        assert(out@ == before + all.take(i + 1));
    }
    assert(all.take(list.len() as int) == all);
}

/// The arrows at the origin with their letters, and larger letters at the far ends of the grid.
pub open spec fn axes_strokes<A: Arithmetic>(a: &A, grid_span: Scalar) -> Seq<Stroke> {
    let red = rgba(0xff, 0x55, 0x55, 0xff);
    let green = rgba(0x55, 0xff, 0x55, 0xff);
    let blue = rgba(0x55, 0x88, 0xff, 0xff);
    let shaft = times(a, num(THICK_W), num(ONE_POINT_FOUR));
    let back = minus(a, num(THIRTY), num(FOUR));
    let barb = times(a, num(FOUR), num(POINT_SIX));
    let other_barb = times(a, num(FOUR).negated(), num(POINT_SIX));
    let beyond = plus(a, num(THIRTY), num(FOUR));
    let low = num(THREE).negated();
    let aside = minus(a, num(TWELVE).negated(), num(THREE));
    let far = minus(a, grid_span, num(FIFTEEN)).greater(plus(a, num(THIRTY), num(TWENTY)));
    let origin = v3(num(0), num(0), num(LIFT));
    let end_x = v3(num(THIRTY), num(0), num(LIFT));
    let end_y = v3(num(0), num(THIRTY), num(LIFT));
    let end_z = v3(num(0), num(0), num(TWENTY));
    seq![
        stroke(origin, end_x, red, shaft),
        stroke(end_x, v3(back, barb, num(LIFT)), red, num(THICK_W)),
        stroke(end_x, v3(back, other_barb, num(LIFT)), red, num(THICK_W)),
    ] + letter_xy(a, 'X', v3(beyond, low, num(LIFT)), num(SIX), red) + seq![
        stroke(origin, end_y, green, shaft),
        stroke(end_y, v3(barb, back, num(LIFT)), green, num(THICK_W)),
        stroke(end_y, v3(other_barb, back, num(LIFT)), green, num(THICK_W)),
    ] + letter_xy(a, 'Y', v3(low, beyond, num(LIFT)), num(SIX), green) + seq![
        stroke(v3(num(0), num(0), num(0)), end_z, blue, num(THICK_W)),
        stroke(end_z, v3(num(ONE_AND_HALF), num(0), num(EIGHTEEN)), blue, num(THICK_W)),
        stroke(end_z, v3(num(ONE_AND_HALF).negated(), num(0), num(EIGHTEEN)), blue, num(THICK_W)),
    ] + letter_xz(a, 'Z', v3(low, num(0), num(TWENTY_TWO)), num(FIVE), blue) + letter_xy(
        a,
        'X',
        v3(far, aside, num(LIFT)),
        num(TWELVE),
        rgba(0xff, 0x55, 0x55, 0x88),
    ) + letter_xy(
        a,
        'Y',
        v3(aside, far, num(LIFT)),
        num(TWELVE),
        rgba(0x55, 0xff, 0x55, 0x88),
    )
}

pub fn build_axes<A: Arithmetic>(a: &A, grid_span: Scalar) -> (out: Vec<Stroke>)
    requires
        a.lawful(),
    ensures
        out@ == axes_strokes(a, grid_span),
{
    let red = rgba(0xff, 0x55, 0x55, 0xff);
    let green = rgba(0x55, 0xff, 0x55, 0xff);
    let blue = rgba(0x55, 0x88, 0xff, 0xff);
    let shaft = times(a, num(THICK_W), num(ONE_POINT_FOUR));
    let back = minus(a, num(THIRTY), num(FOUR));
    let barb = times(a, num(FOUR), num(POINT_SIX));
    let other_barb = times(a, num(FOUR).neg(), num(POINT_SIX));
    let beyond = plus(a, num(THIRTY), num(FOUR));
    let low = num(THREE).neg();
    let aside = minus(a, num(TWELVE).neg(), num(THREE));
    let far = minus(a, grid_span, num(FIFTEEN)).max(plus(a, num(THIRTY), num(TWENTY)));
    let origin = v3(num(0), num(0), num(LIFT));
    let end_x = v3(num(THIRTY), num(0), num(LIFT));
    let end_y = v3(num(0), num(THIRTY), num(LIFT));
    let end_z = v3(num(0), num(0), num(TWENTY));
    let faint_red = rgba(0xff, 0x55, 0x55, 0x88);
    let faint_green = rgba(0x55, 0xff, 0x55, 0x88);
    let mut out: Vec<Stroke> = Vec::new();
    out.push(stroke(origin, end_x, red, shaft));
    out.push(stroke(end_x, v3(back, barb, num(LIFT)), red, num(THICK_W)));
    out.push(stroke(end_x, v3(back, other_barb, num(LIFT)), red, num(THICK_W)));
    draw_letter_xy(a, &mut out, 'X', v3(beyond, low, num(LIFT)), num(SIX), red);
    out.push(stroke(origin, end_y, green, shaft));
    out.push(stroke(end_y, v3(barb, back, num(LIFT)), green, num(THICK_W)));
    out.push(stroke(end_y, v3(other_barb, back, num(LIFT)), green, num(THICK_W)));
    draw_letter_xy(a, &mut out, 'Y', v3(low, beyond, num(LIFT)), num(SIX), green);
    let tip = v3(num(ONE_AND_HALF), num(0), num(EIGHTEEN));
    let other_tip = v3(num(ONE_AND_HALF).neg(), num(0), num(EIGHTEEN));
    out.push(stroke(v3(num(0), num(0), num(0)), end_z, blue, num(THICK_W)));
    out.push(stroke(end_z, tip, blue, num(THICK_W)));
    out.push(stroke(end_z, other_tip, blue, num(THICK_W)));
    draw_letter_xz(a, &mut out, 'Z', v3(low, num(0), num(TWENTY_TWO)), num(FIVE), blue);
    draw_letter_xy(a, &mut out, 'X', v3(far, aside, num(LIFT)), num(TWELVE), faint_red);
    draw_letter_xy(a, &mut out, 'Y', v3(aside, far, num(LIFT)), num(TWELVE), faint_green);
    assert(out@ =~= axes_strokes(a, grid_span));
    out
}

/// The spindle over the tool, the tool itself, its height over the work, and crosses at the tool
/// and on the work.
pub open spec fn gantry_strokes<A: Arithmetic>(a: &A, p: Vec3, z_top: Scalar) -> Seq<Stroke> {
    let spin = rgba(0x88, 0x88, 0xaa, 0xbb);
    let tip = rgba(0xdd, 0xdd, 0xee, 0xff);
    let down = rgba(0x00, 0xff, 0xff, 0x44);
    let cross = rgba(0x00, 0xff, 0xff, 0xff);
    let shadow = rgba(0x00, 0xff, 0xff, 0x33);
    let top = plus(a, p.z, num(EIGHT));
    seq![
        stroke(v3(p.x, p.y, z_top), v3(p.x, p.y, top), spin, num(LINE_W)),
        stroke(v3(minus(a, p.x, num(THREE)), p.y, top), p, tip, num(GRID_W)),
        stroke(v3(plus(a, p.x, num(THREE)), p.y, top), p, tip, num(GRID_W)),
        stroke(v3(p.x, minus(a, p.y, num(THREE)), top), p, tip, num(GRID_W)),
        stroke(v3(p.x, plus(a, p.y, num(THREE)), top), p, tip, num(GRID_W)),
    ] + (if num(HALF).below(p.z.absolute()) {
        seq![stroke(p, v3(p.x, p.y, num(0)), down, num(GRID_W))]
    } else {
        Seq::empty()
    }) + seq![
        stroke(
            v3(minus(a, p.x, num(FOUR)), p.y, p.z),
            v3(plus(a, p.x, num(FOUR)), p.y, p.z),
            cross,
            num(LINE_W),
        ),
        stroke(
            v3(p.x, minus(a, p.y, num(FOUR)), p.z),
            v3(p.x, plus(a, p.y, num(FOUR)), p.z),
            cross,
            num(LINE_W),
        ),
        stroke(
            v3(minus(a, p.x, num(THREE)), p.y, num(0)),
            v3(plus(a, p.x, num(THREE)), p.y, num(0)),
            shadow,
            num(LINE_W),
        ),
        stroke(
            v3(p.x, minus(a, p.y, num(THREE)), num(0)),
            v3(p.x, plus(a, p.y, num(THREE)), num(0)),
            shadow,
            num(LINE_W),
        ),
    ]
}

pub fn build_gantry<A: Arithmetic>(a: &A, p: Vec3, z_top: Scalar) -> (out: Vec<Stroke>)
    requires
        a.lawful(),
    ensures
        out@ == gantry_strokes(a, p, z_top),
{
    let spin = rgba(0x88, 0x88, 0xaa, 0xbb);
    let tip = rgba(0xdd, 0xdd, 0xee, 0xff);
    let down = rgba(0x00, 0xff, 0xff, 0x44);
    let cross = rgba(0x00, 0xff, 0xff, 0xff);
    let shadow = rgba(0x00, 0xff, 0xff, 0x33);
    let top = plus(a, p.z, num(EIGHT));
    let mut out: Vec<Stroke> = Vec::new();
    out.push(stroke(v3(p.x, p.y, z_top), v3(p.x, p.y, top), spin, num(LINE_W)));
    out.push(stroke(v3(minus(a, p.x, num(THREE)), p.y, top), p, tip, num(GRID_W)));
    out.push(stroke(v3(plus(a, p.x, num(THREE)), p.y, top), p, tip, num(GRID_W)));
    out.push(stroke(v3(p.x, minus(a, p.y, num(THREE)), top), p, tip, num(GRID_W)));
    out.push(stroke(v3(p.x, plus(a, p.y, num(THREE)), top), p, tip, num(GRID_W)));
    if num(HALF).lt(p.z.abs()) {
        out.push(stroke(p, v3(p.x, p.y, num(0)), down, num(GRID_W)));
    }
    out.push(
        stroke(
            v3(minus(a, p.x, num(FOUR)), p.y, p.z),
            v3(plus(a, p.x, num(FOUR)), p.y, p.z),
            cross,
            num(LINE_W),
        ),
    );
    out.push(
        stroke(
            v3(p.x, minus(a, p.y, num(FOUR)), p.z),
            v3(p.x, plus(a, p.y, num(FOUR)), p.z),
            cross,
            num(LINE_W),
        ),
    );
    out.push(
        stroke(
            v3(minus(a, p.x, num(THREE)), p.y, num(0)),
            v3(plus(a, p.x, num(THREE)), p.y, num(0)),
            shadow,
            num(LINE_W),
        ),
    );
    out.push(
        stroke(
            v3(p.x, minus(a, p.y, num(THREE)), num(0)),
            v3(p.x, plus(a, p.y, num(THREE)), num(0)),
            shadow,
            num(LINE_W),
        ),
    );
    assert(out@ =~= gantry_strokes(a, p, z_top));
    out
}

/// The colour of a path that is run over so often.
pub open spec fn spec_heatmap_color(pass_count: u16) -> Color {
    if pass_count <= 1 {
        rgba(0x00, 0xff, 0x88, 0xff)
    } else if pass_count == 2 {
        rgba(0xff, 0xdd, 0x33, 0xff)
    } else if pass_count == 3 {
        rgba(0xff, 0x99, 0x22, 0xff)
    } else if pass_count == 4 {
        rgba(0xff, 0x55, 0x22, 0xff)
    } else {
        rgba(0xff, 0x22, 0x66, 0xff)
    }
}

#[verifier::when_used_as_spec(spec_heatmap_color)]
pub fn heatmap_color(pass_count: u16) -> (c: Color)
    ensures
        c == spec_heatmap_color(pass_count),
{
    if pass_count <= 1 {
        rgba(0x00, 0xff, 0x88, 0xff)
    } else if pass_count == 2 {
        rgba(0xff, 0xdd, 0x33, 0xff)
    } else if pass_count == 3 {
        rgba(0xff, 0x99, 0x22, 0xff)
    } else if pass_count == 4 {
        rgba(0xff, 0x55, 0x22, 0xff)
    } else {
        rgba(0xff, 0x22, 0x66, 0xff)
    }
}

/// A part of a colour: the integer part of `x`, from zero to 255.
pub open spec fn spec_level<A: Arithmetic>(a: &A, x: Scalar) -> u8 {
    to_unsigned(a, x, 255) as u8
}

#[verifier::when_used_as_spec(spec_level)]
pub fn level<A: Arithmetic>(a: &A, x: Scalar) -> (n: u8)
    requires
        a.lawful(),
    ensures
        n == spec_level(a, x),
{
    to_unsigned(a, x, 255) as u8
}

/// The colour of a cut at the height `z`, from the lowest to the highest of the job.
pub open spec fn spec_depth_color<A: Arithmetic>(a: &A, z: Scalar, zmin: Scalar, zmax: Scalar) -> Color {
    if zmax.at_most(zmin) {
        rgba(0x00, 0xff, 0x88, 0xff)
    } else {
        let t = over(a, minus(a, z, zmin), minus(a, zmax, zmin));
        rgba(
            0x00,
            level(a, plus(a, num(GREEN_LOW), times(a, t, num(GREEN_SPAN)))),
            level(a, minus(a, num(BLUE_HIGH), times(a, t, num(BLUE_SPAN)))),
            0xff,
        )
    }
}

#[verifier::when_used_as_spec(spec_depth_color)]
pub fn depth_color<A: Arithmetic>(a: &A, z: Scalar, zmin: Scalar, zmax: Scalar) -> (c: Color)
    requires
        a.lawful(),
    ensures
        c == spec_depth_color(a, z, zmin, zmax),
{
    if zmax.le(zmin) {
        return rgba(0x00, 0xff, 0x88, 0xff);
    }
    let t = over(a, minus(a, z, zmin), minus(a, zmax, zmin));
    rgba(
        0x00,
        level(a, plus(a, num(GREEN_LOW), times(a, t, num(GREEN_SPAN)))),
        level(a, minus(a, num(BLUE_HIGH), times(a, t, num(BLUE_SPAN)))),
        0xff,
    )
}

/// A segment of the toolpath: red and thick if it leaves the travel, else by its passes if those
/// are shown, else by its kind and depth.
pub open spec fn path_stroke<A: Arithmetic>(
    a: &A,
    seg: Segment,
    violated: bool,
    pass_count: u16,
    zmin: Scalar,
    zmax: Scalar,
    show_heatmap: bool,
) -> Stroke {
    let hot = show_heatmap && pass_count > 1;
    let color = if violated {
        rgba(0xff, 0x22, 0x22, 0xff)
    } else if hot {
        heatmap_color(pass_count)
    } else if seg.rapid {
        rgba(0xff, 0x88, 0x00, 0xff)
    } else {
        depth_color(a, seg.end.z, zmin, zmax)
    };
    let width = if violated {
        num(THICK_W)
    } else if hot {
        plus(
            a,
            num(LINE_W),
            times(a, minus(a, single_of(a, pass_count as u64), num(ONE)), num(PASS_W)),
        ).lesser(times(a, num(THICK_W), num(WIDEST)))
    } else if seg.rapid {
        num(GRID_W)
    } else {
        num(LINE_W)
    };
    stroke(seg.start, seg.end, color, width)
}

/// The toolpath.
pub open spec fn path_strokes<A: Arithmetic>(
    a: &A,
    segments: Seq<Segment>,
    violations: Seq<bool>,
    counts: Seq<u16>,
    bmin: Vec3,
    bmax: Vec3,
    show_heatmap: bool,
) -> Seq<Stroke> {
    Seq::new(
        segments.len(),
        |i: int|
            path_stroke(
                a,
                segments[i],
                marked(violations, i),
                passes_of(counts, i),
                bmin.z,
                bmax.z,
                show_heatmap,
            ),
    )
}

pub fn build_toolpath<A: Arithmetic>(
    a: &A,
    segments: &[Segment],
    seg_violations: &[bool],
    seg_pass_counts: &[u16],
    bmin: Vec3,
    bmax: Vec3,
    show_heatmap: bool,
) -> (out: Vec<Stroke>)
    requires
        a.lawful(),
    ensures
        out@ == path_strokes(
            a,
            segments@,
            seg_violations@,
            seg_pass_counts@,
            bmin,
            bmax,
            show_heatmap,
        ),
{
    let mut out: Vec<Stroke> = Vec::new();
    let ghost all = path_strokes(
        a,
        segments@,
        seg_violations@,
        seg_pass_counts@,
        bmin,
        bmax,
        show_heatmap,
    );
    for i in 0..segments.len()
        invariant
            a.lawful(),
            all == path_strokes(
                a,
                segments@,
                seg_violations@,
                seg_pass_counts@,
                bmin,
                bmax,
                show_heatmap,
            ),
            out@ == all.take(i as int),
    {
        let seg = segments[i];
        let violated = i < seg_violations.len() && seg_violations[i];
        let pass_count: u16 = if i < seg_pass_counts.len() {
            seg_pass_counts[i]
        } else {
            1
        };
        let hot = show_heatmap && pass_count > 1;
        let color = if violated {
            rgba(0xff, 0x22, 0x22, 0xff)
        } else if hot {
            heatmap_color(pass_count)
        } else if seg.rapid {
            rgba(0xff, 0x88, 0x00, 0xff)
        } else {
            depth_color(a, seg.end.z, bmin.z, bmax.z)
        };
        let width = if violated {
            num(THICK_W)
        } else if hot {
            plus(
                a,
                num(LINE_W),
                times(a, minus(a, single_of(a, pass_count as u64), num(ONE)), num(PASS_W)),
            ).min(times(a, num(THICK_W), num(WIDEST)))
        } else if seg.rapid {
            num(GRID_W)
        } else {
            num(LINE_W)
        };
        out.push(stroke(seg.start, seg.end, color, width));
        assert(all.take(i + 1) == all.take(i as int).push(all[i as int]));
    }
    assert(all.take(segments.len() as int) == all);
    out
}

/// The way that the tool has come, the fainter the longer ago.
pub open spec fn trail_strokes<A: Arithmetic>(a: &A, points: Seq<Vec3>) -> Seq<Stroke> {
    let n = points.len();
    Seq::new(
        if n > 0 {
            (n - 1) as nat
        } else {
            0
        },
        |k: int|
            stroke(
                points[k],
                points[k + 1],
                rgba(
                    0xff,
                    0xaa,
                    0x00,
                    level(
                        a,
                        plus(
                            a,
                            num(FAINTEST),
                            times(
                                a,
                                over(a, single_of(a, (k + 1) as u64), single_of(a, n as u64)),
                                num(FADE),
                            ),
                        ),
                    ),
                ),
                num(LINE_W),
            ),
    )
}

pub fn build_trail<A: Arithmetic>(a: &A, points: &[Vec3]) -> (out: Vec<Stroke>)
    requires
        a.lawful(),
    ensures
        out@ == trail_strokes(a, points@),
{
    let n: usize = points.len();
    let mut out: Vec<Stroke> = Vec::new();
    let ghost all = trail_strokes(a, points@);
    let mut k: usize = 0;
    assert(all.take(0) == Seq::<Stroke>::empty());
    while n > 0 && k < n - 1
        invariant
            a.lawful(),
            n == points@.len(),
            all == trail_strokes(a, points@),
            k <= all.len(),
            out@ == all.take(k as int),
        decreases n - k,
    {
        let t = over(a, single_of(a, k as u64 + 1), single_of(a, n as u64));
        let alpha = level(a, plus(a, num(FAINTEST), times(a, t, num(FADE))));
        out.push(stroke(points[k], points[k + 1], rgba(0xff, 0xaa, 0x00, alpha), num(LINE_W)));
        assert(all.take(k + 1) == all.take(k as int).push(all[k as int]));
        k = k + 1;
    }
    assert(all.take(all.len() as int) == all);
    out
}

/// The colour of a cell of the stock: that of wood where it is untouched, else the bluer the
/// deeper.
pub open spec fn spec_material_color<A: Arithmetic>(
    a: &A,
    z: Scalar,
    z_top: Scalar,
    z_floor: Scalar,
) -> Color {
    if minus(a, z_top, num(UNTOUCHED)).at_most(z) {
        rgba(0xc8, 0x96, 0x3e, 0xc0)
    } else {
        let span = minus(a, z_top, z_floor).greater(num(LEAST_SPAN));
        let t = over(a, minus(a, z_top, z), span).clamped(num(0), num(ONE));
        rgba(
            level(a, minus(a, num(STOCK_R), times(a, t, num(STOCK_R_SPAN)))),
            level(a, minus(a, num(STOCK_G), times(a, t, num(STOCK_G_SPAN)))),
            level(a, plus(a, num(STOCK_B), times(a, t, num(STOCK_B_SPAN)))),
            0xee,
        )
    }
}

#[verifier::when_used_as_spec(spec_material_color)]
pub fn material_color<A: Arithmetic>(a: &A, z: Scalar, z_top: Scalar, z_floor: Scalar) -> (c: Color)
    requires
        a.lawful(),
    ensures
        c == spec_material_color(a, z, z_top, z_floor),
{
    if minus(a, z_top, num(UNTOUCHED)).le(z) {
        return rgba(0xc8, 0x96, 0x3e, 0xc0);
    }
    let span = minus(a, z_top, z_floor).max(num(LEAST_SPAN));
    let t = over(a, minus(a, z_top, z), span).clamp(num(0), num(ONE));
    rgba(
        level(a, minus(a, num(STOCK_R), times(a, t, num(STOCK_R_SPAN)))),
        level(a, minus(a, num(STOCK_G), times(a, t, num(STOCK_G_SPAN)))),
        level(a, plus(a, num(STOCK_B), times(a, t, num(STOCK_B_SPAN)))),
        0xee,
    )
}

} // verus!
