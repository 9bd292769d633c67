//! Probed heights over a rectangle.
use vstd::prelude::*;
use crate::arith::{
    fixed, lemma_units_of_one, lemma_units_order, minus, over, plus, read_single, show_fixed,
    single_of, single_text, times, to_unsigned, unit_count, Arithmetic, Scalar, INFINITY, ONE,
};
use crate::lines::{
    append, join_lines, joined, lemma_decimal_read, lemma_float_text_token, lemma_lines_joined,
    lemma_tokens_spaced, lines, lines_of, one_line, one_token, space_out, spaced,
};
use crate::text::{
    decimal, decimal_of, digit, float_text, from_chars, integer_of, is_float_text, lemma_trimmed,
    natural_of, parse_u32, same_text, space, to_chars, tokens, tokens_of, trim, trimmed,
    unsigned_part, views,
};

verus! {

/// Heights at the points of a regular grid, row by row.
#[derive(Debug, PartialEq)]
pub struct HeightMap {
    pub bbox_min: (Scalar, Scalar),
    pub bbox_max: (Scalar, Scalar),
    pub grid_x: u32,
    pub grid_y: u32,
    pub z: Vec<Scalar>,
}

impl Clone for HeightMap {
    fn clone(&self) -> (out: HeightMap)
        ensures
            out.z@ == self.z@,
            out == (HeightMap { z: out.z, ..*self }),
    {
        let mut z: Vec<Scalar> = Vec::new();
        for i in 0..self.z.len()
            invariant
                z@ == self.z@.take(i as int),
        {
            z.push(self.z[i]);
        }
        HeightMap {
            bbox_min: self.bbox_min,
            bbox_max: self.bbox_max,
            grid_x: self.grid_x,
            grid_y: self.grid_y,
            z,
        }
    }
}

impl HeightMap {
    /// There are at least two points in each direction, a height for each point, and the corners
    /// are numbers in order.
    pub open spec fn wf(&self) -> bool {
        &&& self.grid_x >= 2
        &&& self.grid_y >= 2
        &&& self.filled()
        &&& self.bbox_min.0.at_most(self.bbox_max.0)
        &&& self.bbox_min.1.at_most(self.bbox_max.1)
    }

    /// There is a height for each point.
    pub open spec fn filled(&self) -> bool {
        &&& self.grid_x * self.grid_y <= u32::MAX
        &&& self.z@.len() == self.grid_x * self.grid_y
    }

    /// The corners, the numbers of points and the heights.
    pub open spec fn plane(&self) -> Plane {
        Plane {
            bbox_min: self.bbox_min,
            bbox_max: self.bbox_max,
            grid_x: self.grid_x,
            grid_y: self.grid_y,
            z: self.z@,
        }
    }

    /// Whether the heights can be read everywhere.
    pub fn is_sound(&self) -> (yes: bool)
        ensures
            yes == self.wf(),
    {
        assert(self.grid_x * self.grid_y <= 0xffff_ffff * 0xffff_ffff) by (nonlinear_arith)
            requires
                self.grid_x <= 0xffff_ffff,
                self.grid_y <= 0xffff_ffff,
        ;
        self.grid_x >= 2 && self.grid_y >= 2 && (self.grid_x as u64) * (self.grid_y as u64)
            <= 0xffff_ffff && self.z.len() as u64 == (self.grid_x as u64) * (self.grid_y as u64)
            && self.bbox_min.0.le(self.bbox_max.0) && self.bbox_min.1.le(self.bbox_max.1)
    }

    pub fn new(
        bbox_min: (Scalar, Scalar),
        bbox_max: (Scalar, Scalar),
        grid_x: u32,
        grid_y: u32,
        z: Vec<Scalar>,
    ) -> (out: Result<HeightMap, String>)
        requires
            grid_x * grid_y <= u32::MAX || !placed(bbox_min, bbox_max, grid_x, grid_y),
        ensures
            match out {
                Ok(map) => refusal(bbox_min, bbox_max, grid_x, grid_y, z@.len()) is None
                    && map == (HeightMap { bbox_min, bbox_max, grid_x, grid_y, z }),
                Err(e) => refusal(bbox_min, bbox_max, grid_x, grid_y, z@.len()) == Some(e@),
            },
    {
        if grid_x < 2 || grid_y < 2 {
            return Err(text_of("grid_x and grid_y must be >= 2"));
        }
        if bbox_max.0.le(bbox_min.0) || bbox_max.1.le(bbox_min.1) {
            return Err(text_of("bbox_max must be strictly greater than bbox_min"));
        }
        assert(0 <= grid_x * grid_y) by (nonlinear_arith)
            requires
                grid_x >= 0,
                grid_y >= 0,
        ;
        if z.len() as u64 != (grid_x * grid_y) as u64 {
            let mut e = to_chars("z length ");
            append(&mut e, to_chars(decimal(z.len() as u64).as_str()).as_slice());
            append(&mut e, to_chars(" does not match grid ").as_slice());
            append(&mut e, to_chars(decimal(grid_x as u64).as_str()).as_slice());
            append(&mut e, to_chars("x").as_slice());
            append(&mut e, to_chars(decimal(grid_y as u64).as_str()).as_slice());
            return Err(from_chars(e.as_slice()));
        }
        Ok(HeightMap { bbox_min, bbox_max, grid_x, grid_y, z })
    }

    /// The height at `(x, y)`: between the four points around it in both directions, and outside
    /// the rectangle that at the nearest point of its edge.
    pub fn dz<A: Arithmetic>(&self, a: &A, x: Scalar, y: Scalar) -> (h: Scalar)
        requires
            a.lawful(),
            self.wf(),
        ensures
            h == height_at(a, self.plane(), x, y),
    {
        let one = Scalar { bits: ONE };
        let fx = grid_coordinate(a, x, self.bbox_min.0, self.bbox_max.0, self.grid_x);
        let fy = grid_coordinate(a, y, self.bbox_min.1, self.bbox_max.1, self.grid_y);
        let i: u32 = cell(a, fx, self.grid_x);
        let j: u32 = cell(a, fy, self.grid_y);
        let u = part(a, fx, i);
        let v = part(a, fy, j);
        let gx: usize = self.grid_x as usize;
        let row: usize = j as usize;
        let col: usize = i as usize;
        assert((row + 1) * gx + gx <= self.grid_x * self.grid_y && row * gx + gx == (row + 1) * gx
            && 0 <= row * gx) by (nonlinear_arith)
            requires
                row + 2 <= self.grid_y,
                gx == self.grid_x,
                row >= 0,
        ;
        let z00 = self.z[row * gx + col];
        let z10 = self.z[row * gx + col + 1];
        let z01 = self.z[(row + 1) * gx + col];
        let z11 = self.z[(row + 1) * gx + col + 1];
        blend(a, u, v, z00, z10, z01, z11)
    }

    /// The least and the greatest height.
    pub fn z_min_max(&self) -> (r: (Scalar, Scalar))
        ensures
            r == extremes(self.z@),
    {
        let mut lo = Scalar { bits: INFINITY };
        let mut hi = Scalar { bits: NEG_INFINITY };
        assert(self.z@.take(0) == Seq::<Scalar>::empty());
        for k in 0..self.z.len()
            invariant
                (lo, hi) == extremes(self.z@.take(k as int)),
        {
            assert(self.z@.take(k + 1).drop_last() == self.z@.take(k as int));
            lo = lo.min(self.z[k]);
            hi = hi.max(self.z[k]);
        }
        assert(self.z@.take(self.z.len() as int) == self.z@);
        (lo, hi)
    }
}

/// What a height map holds.
pub struct Plane {
    pub bbox_min: (Scalar, Scalar),
    pub bbox_max: (Scalar, Scalar),
    pub grid_x: u32,
    pub grid_y: u32,
    pub z: Seq<Scalar>,
}

/// The negative infinity.
pub const NEG_INFINITY: u32 = 0xff80_0000;

pub fn text_of(s: &str) -> (out: String)
    ensures
        out@ == s@,
{
    from_chars(to_chars(s).as_slice())
}

/// Whether there are points enough and the corners are not in the wrong order.
pub open spec fn placed(
    bbox_min: (Scalar, Scalar),
    bbox_max: (Scalar, Scalar),
    grid_x: u32,
    grid_y: u32,
) -> bool {
    grid_x >= 2 && grid_y >= 2 && !bbox_max.0.at_most(bbox_min.0) && !bbox_max.1.at_most(
        bbox_min.1,
    )
}

/// Why no map can be made of `n` heights.
pub open spec fn refusal(
    bbox_min: (Scalar, Scalar),
    bbox_max: (Scalar, Scalar),
    grid_x: u32,
    grid_y: u32,
    n: nat,
) -> Option<Seq<char>> {
    if grid_x < 2 || grid_y < 2 {
        Some("grid_x and grid_y must be >= 2"@)
    } else if bbox_max.0.at_most(bbox_min.0) || bbox_max.1.at_most(bbox_min.1) {
        Some("bbox_max must be strictly greater than bbox_min"@)
    } else if n != grid_x * grid_y {
        Some(
            "z length "@ + decimal_of(n) + " does not match grid "@ + decimal_of(grid_x as nat)
                + "x"@ + decimal_of(grid_y as nat),
        )
    } else {
        None
    }
}

/// `x` counted in cells of the grid.
pub open spec fn spec_grid_coordinate<A: Arithmetic>(
    a: &A,
    x: Scalar,
    lo: Scalar,
    hi: Scalar,
    grid: u32,
) -> Scalar {
    times(
        a,
        over(a, minus(a, x.clamped(lo, hi), lo), minus(a, hi, lo)),
        single_of(a, (grid - 1) as u64),
    )
}

#[verifier::when_used_as_spec(spec_grid_coordinate)]
pub fn grid_coordinate<A: Arithmetic>(
    a: &A,
    x: Scalar,
    lo: Scalar,
    hi: Scalar,
    grid: u32,
) -> (r: Scalar)
    requires
        a.lawful(),
        lo.at_most(hi),
        grid >= 1,
    ensures
        r == spec_grid_coordinate(a, x, lo, hi, grid),
{
    times(
        a,
        over(a, minus(a, x.clamp(lo, hi), lo), minus(a, hi, lo)),
        single_of(a, (grid - 1) as u64),
    )
}

/// The cell that holds the coordinate; the last one where there is none.
pub open spec fn spec_cell<A: Arithmetic>(a: &A, f: Scalar, grid: u32) -> u32 {
    to_unsigned(a, f, (grid - 2) as u64) as u32
}

#[verifier::when_used_as_spec(spec_cell)]
pub fn cell<A: Arithmetic>(a: &A, f: Scalar, grid: u32) -> (i: u32)
    requires
        a.lawful(),
        grid >= 2,
    ensures
        i == spec_cell(a, f, grid),
        i + 2 <= grid,
{
    to_unsigned(a, f, (grid - 2) as u64) as u32
}

/// How far into its cell the coordinate is, from zero to one.
pub open spec fn spec_part<A: Arithmetic>(a: &A, f: Scalar, i: u32) -> Scalar {
    minus(a, f, single_of(a, i as u64)).clamped(Scalar { bits: 0 }, Scalar { bits: ONE })
}

#[verifier::when_used_as_spec(spec_part)]
pub fn part<A: Arithmetic>(a: &A, f: Scalar, i: u32) -> (r: Scalar)
    requires
        a.lawful(),
    ensures
        r == spec_part(a, f, i),
{
    minus(a, f, single_of(a, i as u64)).clamp(Scalar { bits: 0 }, Scalar { bits: ONE })
}

/// The bilinear mean of four heights.
pub open spec fn spec_blend<A: Arithmetic>(
    a: &A,
    u: Scalar,
    v: Scalar,
    z00: Scalar,
    z10: Scalar,
    z01: Scalar,
    z11: Scalar,
) -> Scalar {
    let one = Scalar { bits: ONE };
    plus(
        a,
        plus(
            a,
            plus(
                a,
                times(a, times(a, minus(a, one, u), minus(a, one, v)), z00),
                times(a, times(a, u, minus(a, one, v)), z10),
            ),
            times(a, times(a, minus(a, one, u), v), z01),
        ),
        times(a, times(a, u, v), z11),
    )
}

#[verifier::when_used_as_spec(spec_blend)]
pub fn blend<A: Arithmetic>(
    a: &A,
    u: Scalar,
    v: Scalar,
    z00: Scalar,
    z10: Scalar,
    z01: Scalar,
    z11: Scalar,
) -> (r: Scalar)
    requires
        a.lawful(),
    ensures
        r == spec_blend(a, u, v, z00, z10, z01, z11),
{
    let one = Scalar { bits: ONE };
    plus(
        a,
        plus(
            a,
            plus(
                a,
                times(a, times(a, minus(a, one, u), minus(a, one, v)), z00),
                times(a, times(a, u, minus(a, one, v)), z10),
            ),
            times(a, times(a, minus(a, one, u), v), z01),
        ),
        times(a, times(a, u, v), z11),
    )
}

/// The height of the plane at a point.
pub open spec fn height_at<A: Arithmetic>(a: &A, p: Plane, x: Scalar, y: Scalar) -> Scalar {
    let fx = grid_coordinate(a, x, p.bbox_min.0, p.bbox_max.0, p.grid_x);
    let fy = grid_coordinate(a, y, p.bbox_min.1, p.bbox_max.1, p.grid_y);
    let i = cell(a, fx, p.grid_x);
    let j = cell(a, fy, p.grid_y);
    blend(
        a,
        part(a, fx, i),
        part(a, fy, j),
        p.z[j * p.grid_x + i],
        p.z[j * p.grid_x + i + 1],
        p.z[(j + 1) * p.grid_x + i],
        p.z[(j + 1) * p.grid_x + i + 1],
    )
}

/// Outside the rectangle the height is that at the nearest point of its edge.
pub proof fn lemma_height_outside<A: Arithmetic>(a: &A, p: Plane, x: Scalar, y: Scalar)
    requires
        p.bbox_min.0.at_most(p.bbox_max.0),
        p.bbox_min.1.at_most(p.bbox_max.1),
    ensures
        height_at(a, p, x, y) == height_at(
            a,
            p,
            x.clamped(p.bbox_min.0, p.bbox_max.0),
            y.clamped(p.bbox_min.1, p.bbox_max.1),
        ),
{
}

/// The least and the greatest of `z`; those of no number at all are infinite.
pub open spec fn extremes(z: Seq<Scalar>) -> (Scalar, Scalar)
    decreases z.len(),
{
    if z.len() == 0 {
        (Scalar { bits: INFINITY }, Scalar { bits: NEG_INFINITY })
    } else {
        let (lo, hi) = extremes(z.drop_last());
        (lo.lesser(z.last()), hi.greater(z.last()))
    }
}

/// No height that is a number is below the least or above the greatest.
pub proof fn lemma_extremes(z: Seq<Scalar>)
    ensures
        !extremes(z).0.nan() && !extremes(z).1.nan(),
        forall|k: int|
            0 <= k < z.len() && !(#[trigger] z[k]).nan() ==> extremes(z).0.at_most(z[k])
                && z[k].at_most(extremes(z).1),
    decreases z.len(),
{
    if z.len() > 0 {
        let front = z.drop_last();
        lemma_extremes(front);
        assert forall|k: int| 0 <= k < z.len() && !(#[trigger] z[k]).nan() implies extremes(
            z,
        ).0.at_most(z[k]) && z[k].at_most(extremes(z).1) by {
            if k < front.len() {
                assert(front[k] == z[k]);
            }
        }
    }
}

/// The coordinate of point `i` of `n` on the way from `lo` to `hi`.
pub open spec fn spec_point_on<A: Arithmetic>(a: &A, lo: Scalar, hi: Scalar, i: u32, n: u32) -> Scalar {
    let last = if n > 2 {
        (n - 1) as u64
    } else {
        1
    };
    plus(a, lo, times(a, over(a, single_of(a, i as u64), single_of(a, last)), minus(a, hi, lo)))
}

#[verifier::when_used_as_spec(spec_point_on)]
pub fn point_on<A: Arithmetic>(a: &A, lo: Scalar, hi: Scalar, i: u32, n: u32) -> (r: Scalar)
    requires
        a.lawful(),
    ensures
        r == spec_point_on(a, lo, hi, i, n),
{
    let last: u64 = if n > 2 {
        (n - 1) as u64
    } else {
        1
    };
    plus(a, lo, times(a, over(a, single_of(a, i as u64), single_of(a, last)), minus(a, hi, lo)))
}

/// Where the point `idx` of the grid lies, counted row by row.
pub open spec fn spec_grid_point<A: Arithmetic>(
    a: &A,
    bbox_min: (Scalar, Scalar),
    bbox_max: (Scalar, Scalar),
    grid_x: u32,
    grid_y: u32,
    idx: usize,
) -> (Scalar, Scalar) {
    (
        point_on(a, bbox_min.0, bbox_max.0, (idx as int % grid_x as int) as u32, grid_x),
        point_on(a, bbox_min.1, bbox_max.1, (idx as int / grid_x as int) as u32, grid_y),
    )
}

#[verifier::when_used_as_spec(spec_grid_point)]
pub fn grid_point<A: Arithmetic>(
    a: &A,
    bbox_min: (Scalar, Scalar),
    bbox_max: (Scalar, Scalar),
    grid_x: u32,
    grid_y: u32,
    idx: usize,
) -> (p: (Scalar, Scalar))
    requires
        a.lawful(),
        grid_x >= 1,
        grid_y >= 1,
    ensures
        p == spec_grid_point(a, bbox_min, bbox_max, grid_x, grid_y, idx),
{
    let i: u64 = (idx as u64) % (grid_x as u64);
    let j: u64 = (idx as u64) / (grid_x as u64);
    #[verifier::truncate]
    let row: u32 = j as u32;
    (
        point_on(a, bbox_min.0, bbox_max.0, i as u32, grid_x),
        point_on(a, bbox_min.1, bbox_max.1, row, grid_y),
    )
}

/// The first words of a file.
pub open spec fn magic() -> Seq<char> {
    "HEIGHTMAP v1"@
}

/// A number of the file: four digits behind the point.
pub open spec fn entry<A: Arithmetic>(a: &A, x: Scalar) -> Seq<char> {
    fixed(a, x, 4)
}

pub open spec fn bbox_tokens<A: Arithmetic>(a: &A, p: Plane) -> Seq<Seq<char>> {
    seq![
        "bbox"@,
        entry(a, p.bbox_min.0),
        entry(a, p.bbox_min.1),
        entry(a, p.bbox_max.0),
        entry(a, p.bbox_max.1),
    ]
}

pub open spec fn grid_tokens(p: Plane) -> Seq<Seq<char>> {
    seq!["grid"@, decimal_of(p.grid_x as nat), decimal_of(p.grid_y as nat)]
}

/// The heights of row `j`.
pub open spec fn row_tokens<A: Arithmetic>(a: &A, p: Plane, j: int) -> Seq<Seq<char>> {
    Seq::new(p.grid_x as nat, |i: int| entry(a, p.z[j * p.grid_x + i]))
}

/// The lines of the file of a plane.
pub open spec fn map_lines<A: Arithmetic>(a: &A, p: Plane) -> Seq<Seq<char>> {
    seq![magic(), spaced(bbox_tokens(a, p)), spaced(grid_tokens(p))] + Seq::new(
        p.grid_y as nat,
        |j: int| spaced(row_tokens(a, p, j)),
    )
}

/// The file of a plane.
pub open spec fn serialized<A: Arithmetic>(a: &A, p: Plane) -> Seq<char> {
    joined(map_lines(a, p))
}

/// The number that `s` denotes, where it is a `u32`.
pub open spec fn u32_of(s: Seq<char>) -> Option<u32> {
    match integer_of(s) {
        Some(v) if s[0] != '-' && v <= u32::MAX => Some(v as u32),
        _ => None,
    }
}

/// What the first three lines of a file say, with no heights yet.
pub open spec fn head_of<A: Arithmetic>(a: &A, lines: Seq<Seq<char>>) -> Result<Plane, Seq<char>> {
    if lines.len() == 0 {
        Err("empty input"@)
    } else if trimmed(lines[0]) != magic() {
        Err("bad header "@ + lines[0])
    } else if lines.len() < 2 {
        Err("missing bbox"@)
    } else {
        let b = tokens_of(lines[1]);
        if b.len() != 5 || b[0] != "bbox"@ {
            Err("bad bbox "@ + lines[1])
        } else if !float_text(b[1]) || !float_text(b[2]) || !float_text(b[3]) || !float_text(
            b[4],
        ) {
            Err("invalid float literal"@)
        } else if lines.len() < 3 {
            Err("missing grid"@)
        } else {
            let g = tokens_of(lines[2]);
            if g.len() != 3 || g[0] != "grid"@ {
                Err("bad grid "@ + lines[2])
            } else if u32_of(g[1]) is None {
                Err("bad grid_x"@)
            } else if u32_of(g[2]) is None {
                Err("bad grid_y"@)
            } else {
                Ok(
                    Plane {
                        bbox_min: (single_text(a, b[1]), single_text(a, b[2])),
                        bbox_max: (single_text(a, b[3]), single_text(a, b[4])),
                        grid_x: u32_of(g[1])->0,
                        grid_y: u32_of(g[2])->0,
                        z: Seq::empty(),
                    },
                )
            }
        }
    }
}

/// The numbers that `tokens` denote, up to the first that denotes none.
pub open spec fn heights_in<A: Arithmetic>(a: &A, tokens: Seq<Seq<char>>) -> Result<
    Seq<Scalar>,
    Seq<char>,
>
    decreases tokens.len(),
{
    if tokens.len() == 0 {
        Ok(Seq::empty())
    } else {
        match heights_in(a, tokens.drop_last()) {
            Err(e) => Err(e),
            Ok(z) => if float_text(tokens.last()) {
                Ok(z.push(single_text(a, tokens.last())))
            } else {
                Err("bad z "@ + tokens.last())
            },
        }
    }
}

/// The heights in the first `n` rows, which follow the third line.
pub open spec fn rows_of<A: Arithmetic>(a: &A, lines: Seq<Seq<char>>, n: nat) -> Result<
    Seq<Scalar>,
    Seq<char>,
>
    decreases n,
{
    if n == 0 {
        Ok(Seq::empty())
    } else {
        match rows_of(a, lines, (n - 1) as nat) {
            Err(e) => Err(e),
            Ok(z) => if lines.len() < n + 3 {
                Err("missing row"@)
            } else {
                match heights_in(a, tokens_of(lines[(n + 2) as int])) {
                    Err(e) => Err(e),
                    Ok(row) => Ok(z + row),
                }
            },
        }
    }
}

/// What a file says, or why it says nothing.
pub open spec fn parsed_map<A: Arithmetic>(a: &A, text: Seq<char>) -> Result<Plane, Seq<char>> {
    match head_of(a, lines_of(text)) {
        Err(e) => Err(e),
        Ok(head) => match rows_of(a, lines_of(text), head.grid_y as nat) {
            Err(e) => Err(e),
            Ok(z) => match refusal(
                head.bbox_min,
                head.bbox_max,
                head.grid_x,
                head.grid_y,
                z.len(),
            ) {
                Some(e) => Err(e),
                None => Ok(Plane { z, ..head }),
            },
        },
    }
}

/// Whether the number of points that a file announces can be counted.
pub open spec fn countable<A: Arithmetic>(a: &A, text: Seq<char>) -> bool {
    head_of(a, lines_of(text)) matches Ok(head) ==> head.grid_x * head.grid_y <= u32::MAX
}

/// `text` behind `label`.
fn labelled(label: &str, text: &[char]) -> (out: String)
    ensures
        out@ == label@ + text@,
{
    let mut out = to_chars(label);
    append(&mut out, text);
    from_chars(out.as_slice())
}

/// What the first three lines of a file say.
struct Head {
    bbox_min: (Scalar, Scalar),
    bbox_max: (Scalar, Scalar),
    grid_x: u32,
    grid_y: u32,
}

fn parse_head<A: Arithmetic>(a: &A, lines: &Vec<Vec<char>>) -> (out: Result<Head, String>)
    requires
        a.lawful(),
    ensures
        match (out, head_of(a, views(lines@))) {
            (Ok(head), Ok(p)) => p == (Plane {
                bbox_min: head.bbox_min,
                bbox_max: head.bbox_max,
                grid_x: head.grid_x,
                grid_y: head.grid_y,
                z: Seq::empty(),
            }),
            (Err(e), Err(f)) => e@ == f,
            _ => false,
        },
{
    let ghost all = views(lines@);
    if lines.len() == 0 {
        return Err(text_of("empty input"));
    }
    if !same_text(trim(lines[0].as_slice()), "HEIGHTMAP v1") {
        return Err(labelled("bad header ", lines[0].as_slice()));
    }
    if lines.len() < 2 {
        return Err(text_of("missing bbox"));
    }
    let b = tokens(lines[1].as_slice());
    let ghost bs = tokens_of(all[1]);
    assert(bs.len() == b.len());
    assert(forall|k: int| 0 <= k < b.len() ==> (#[trigger] b@[k])@ == bs[k]);
    if b.len() != 5 || !same_text(b[0].as_slice(), "bbox") {
        return Err(labelled("bad bbox ", lines[1].as_slice()));
    }
    if !is_float_text(b[1].as_slice()) || !is_float_text(b[2].as_slice()) || !is_float_text(
        b[3].as_slice(),
    ) || !is_float_text(b[4].as_slice()) {
        return Err(text_of("invalid float literal"));
    }
    let bbox_min = (read_single(a, b[1].as_slice()), read_single(a, b[2].as_slice()));
    let bbox_max = (read_single(a, b[3].as_slice()), read_single(a, b[4].as_slice()));
    if lines.len() < 3 {
        return Err(text_of("missing grid"));
    }
    let g = tokens(lines[2].as_slice());
    let ghost gs = tokens_of(all[2]);
    assert(gs.len() == g.len());
    assert(forall|k: int| 0 <= k < g.len() ==> (#[trigger] g@[k])@ == gs[k]);
    if g.len() != 3 || !same_text(g[0].as_slice(), "grid") {
        return Err(labelled("bad grid ", lines[2].as_slice()));
    }
    match parse_u32(g[1].as_slice()) {
        None => Err(text_of("bad grid_x")),
        Some(grid_x) => match parse_u32(g[2].as_slice()) {
            None => Err(text_of("bad grid_y")),
            Some(grid_y) => Ok(Head { bbox_min, bbox_max, grid_x, grid_y }),
        },
    }
}

fn parse_heights<A: Arithmetic>(a: &A, tokens: &Vec<Vec<char>>, z: &mut Vec<Scalar>) -> (out: Result<
    (),
    String,
>)
    requires
        a.lawful(),
    ensures
        match (out, heights_in(a, views(tokens@))) {
            (Ok(()), Ok(row)) => final(z)@ == old(z)@ + row,
            (Err(e), Err(f)) => e@ == f,
            _ => false,
        },
{
    let ghost all = views(tokens@);
    let ghost before = z@;
    assert(all.take(0) == Seq::<Seq<char>>::empty());
    for k in 0..tokens.len()
        invariant
            a.lawful(),
            all == views(tokens@),
            heights_in(a, all.take(k as int)) matches Ok(row) && z@ == before + row,
    {
        assert(all.take(k + 1).drop_last() == all.take(k as int));
        let token = tokens[k].as_slice();
        assert(token@ == all[k as int]);
        if !is_float_text(token) {
            proof {
                lemma_heights_in_error(a, all, k + 1);
            }
            return Err(labelled("bad z ", token));
        }
        let ghost row = heights_in(a, all.take(k as int))->Ok_0;
        z.push(read_single(a, token));
        assert(z@ == before + row.push(single_text(a, token@)));
    }
    assert(all.take(tokens.len() as int) == all);
    Ok(())
}

/// An error at some token is the error of the whole.
proof fn lemma_heights_in_error<A: Arithmetic>(a: &A, tokens: Seq<Seq<char>>, n: int)
    requires
        0 <= n <= tokens.len(),
        heights_in(a, tokens.take(n)) is Err,
    ensures
        heights_in(a, tokens) == heights_in(a, tokens.take(n)),
    decreases tokens.len(),
{
    if n == tokens.len() {
        assert(tokens.take(n) == tokens);
    } else {
        assert(tokens.drop_last().take(n) == tokens.take(n));
        lemma_heights_in_error(a, tokens.drop_last(), n);
    }
}

/// An error in some row is the error of the whole.
proof fn lemma_rows_of_error<A: Arithmetic>(a: &A, lines: Seq<Seq<char>>, n: nat, m: nat)
    requires
        n <= m,
        rows_of(a, lines, n) is Err,
    ensures
        rows_of(a, lines, m) == rows_of(a, lines, n),
    decreases m,
{
    if n < m {
        lemma_rows_of_error(a, lines, n, (m - 1) as nat);
    }
}

impl HeightMap {
    /// The map as a text.
    pub fn serialize<A: Arithmetic>(&self, a: &A) -> (out: String)
        requires
            a.lawful(),
            self.filled(),
        ensures
            out@ == serialized(a, self.plane()),
    {
        let ghost p = self.plane();
        let mut all: Vec<Vec<char>> = Vec::new();
        all.push(to_chars("HEIGHTMAP v1"));
        let mut bbox: Vec<Vec<char>> = Vec::new();
        bbox.push(to_chars("bbox"));
        bbox.push(to_chars(show_fixed(a, self.bbox_min.0, 4).as_str()));
        bbox.push(to_chars(show_fixed(a, self.bbox_min.1, 4).as_str()));
        bbox.push(to_chars(show_fixed(a, self.bbox_max.0, 4).as_str()));
        bbox.push(to_chars(show_fixed(a, self.bbox_max.1, 4).as_str()));
        assert(views(bbox@) == bbox_tokens(a, p));
        all.push(space_out(&bbox));
        let mut grid: Vec<Vec<char>> = Vec::new();
        grid.push(to_chars("grid"));
        grid.push(to_chars(decimal(self.grid_x as u64).as_str()));
        grid.push(to_chars(decimal(self.grid_y as u64).as_str()));
        assert(views(grid@) == grid_tokens(p));
        all.push(space_out(&grid));
        assert(views(all@) == map_lines(a, p).take(3));
        for j in 0..self.grid_y
            invariant
                a.lawful(),
                self.filled(),
                p == self.plane(),
                views(all@) == map_lines(a, p).take(3 + j),
        {
            let mut row: Vec<Vec<char>> = Vec::new();
            for i in 0..self.grid_x
                invariant
                    a.lawful(),
                    self.filled(),
                    j < self.grid_y,
                    p == self.plane(),
                    views(row@) == row_tokens(a, p, j as int).take(i as int),
            {
                assert(0 <= j * self.grid_x && j * self.grid_x + self.grid_x <= self.grid_x
                    * self.grid_y) by (nonlinear_arith)
                    requires
                        0 <= j < self.grid_y,
                        0 <= self.grid_x,
                ;
                let ghost before = views(row@);
                row.push(to_chars(show_fixed(a, self.z[(j * self.grid_x + i) as usize], 4).as_str()));
                assert(views(row@) == before.push(entry(a, p.z[j * p.grid_x + i])));
                assert(row_tokens(a, p, j as int).take(i + 1) == row_tokens(
                    a,
                    p,
                    j as int,
                ).take(i as int).push(entry(a, p.z[j * p.grid_x + i])));
            }
            assert(row_tokens(a, p, j as int).take(self.grid_x as int) == row_tokens(
                a,
                p,
                j as int,
            ));
            let ghost before = views(all@);
            all.push(space_out(&row));
            assert(views(all@) == before.push(spaced(row_tokens(a, p, j as int))));
            assert(map_lines(a, p)[3 + j] == spaced(row_tokens(a, p, j as int)));
            assert(map_lines(a, p).take(4 + j) == map_lines(a, p).take(3 + j).push(
                map_lines(a, p)[3 + j],
            ));
        }
        assert(map_lines(a, p).take(3 + self.grid_y) == map_lines(a, p));
        from_chars(join_lines(&all).as_slice())
    }

    /// Whether the number of points that `text` announces can be counted.
    pub fn announces_countable<A: Arithmetic>(a: &A, text: &str) -> (yes: bool)
        requires
            a.lawful(),
        ensures
            yes == countable(a, text@),
    {
        let all = lines(to_chars(text).as_slice());
        match parse_head(a, &all) {
            Ok(head) => {
                assert(head.grid_x * head.grid_y <= 0xffff_ffff * 0xffff_ffff) by (nonlinear_arith)
                    requires
                        head.grid_x <= 0xffff_ffff,
                        head.grid_y <= 0xffff_ffff,
                ;
                (head.grid_x as u64) * (head.grid_y as u64) <= 0xffff_ffff
            },
            Err(_) => true,
        }
    }

    /// The map that a text holds.
    pub fn parse<A: Arithmetic>(a: &A, text: &str) -> (out: Result<HeightMap, String>)
        requires
            a.lawful(),
            countable(a, text@),
        ensures
            match (out, parsed_map(a, text@)) {
                (Ok(map), Ok(p)) => map.plane() == p,
                (Err(e), Err(f)) => e@ == f,
                _ => false,
            },
    {
        let all = lines(to_chars(text).as_slice());
        let ghost ls = views(all@);
        let head = match parse_head(a, &all) {
            Ok(head) => head,
            Err(e) => {
                return Err(e);
            },
        };
        let mut z: Vec<Scalar> = Vec::new();
        for j in 0..head.grid_y
            invariant
                a.lawful(),
                ls == views(all@),
                ls == lines_of(text@),
                head_of(a, ls) is Ok,
                head_of(a, ls)->Ok_0.grid_y == head.grid_y,
                rows_of(a, ls, j as nat) == Ok::<Seq<Scalar>, Seq<char>>(z@),
        {
            if all.len() - 3 <= j as usize {
                proof {
                    lemma_rows_of_error(a, ls, (j + 1) as nat, head.grid_y as nat);
                }
                return Err(text_of("missing row"));
            }
            assert(ls[j + 3] == all@[j + 3]@);
            let row = tokens(all[j as usize + 3].as_slice());
            match parse_heights(a, &row, &mut z) {
                Ok(()) => {},
                Err(e) => {
                    proof {
                        lemma_rows_of_error(a, ls, (j + 1) as nat, head.grid_y as nat);
                    }
                    return Err(e);
                },
            }
        }
        HeightMap::new(head.bbox_min, head.bbox_max, head.grid_x, head.grid_y, z)
    }
}

/// The number that is read where `x` was written.
pub open spec fn rounded<A: Arithmetic>(a: &A, x: Scalar) -> Scalar {
    single_text(a, entry(a, x))
}

/// The plane with every number as it is written.
pub open spec fn rounded_plane<A: Arithmetic>(a: &A, p: Plane) -> Plane {
    Plane {
        bbox_min: (rounded(a, p.bbox_min.0), rounded(a, p.bbox_min.1)),
        bbox_max: (rounded(a, p.bbox_max.0), rounded(a, p.bbox_max.1)),
        grid_x: p.grid_x,
        grid_y: p.grid_y,
        z: p.z.map_values(|x: Scalar| rounded(a, x)),
    }
}

/// Whether four digits behind the point are enough for every number of the plane.
pub open spec fn exact<A: Arithmetic>(a: &A, p: Plane) -> bool {
    rounded_plane(a, p) == p
}

/// What a text is read from is what was written, each number rounded to what its text denotes:
/// the same map, where four digits behind the point are enough.
pub proof fn lemma_parse_serialized<A: Arithmetic>(a: &A, p: Plane)
    requires
        a.lawful(),
        p.grid_x * p.grid_y <= u32::MAX,
        p.z.len() == p.grid_x * p.grid_y,
    ensures
        ({
            let q = rounded_plane(a, p);
            parsed_map(a, serialized(a, p)) == match refusal(
                q.bbox_min,
                q.bbox_max,
                q.grid_x,
                q.grid_y,
                q.z.len(),
            ) {
                Some(e) => Err(e),
                None => Ok(q),
            }
        }),
        exact(a, p) && placed(p.bbox_min, p.bbox_max, p.grid_x, p.grid_y) ==> parsed_map(
            a,
            serialized(a, p),
        ) == Ok::<Plane, Seq<char>>(p),
{
    let ls = map_lines(a, p);
    lemma_file_lines(a, p);
    lemma_lines_joined(ls);
    lemma_file_head(a, p);
    lemma_file_rows(a, p, p.grid_y as nat);
    let z = p.z.map_values(|x: Scalar| rounded(a, x));
    assert(z.take(p.grid_y * p.grid_x) == z) by {
        assert(p.grid_y * p.grid_x == p.grid_x * p.grid_y) by (nonlinear_arith);
    }
}

proof fn lemma_entry_token<A: Arithmetic>(a: &A, x: Scalar)
    requires
        a.lawful(),
    ensures
        float_text(entry(a, x)),
        one_token(entry(a, x)),
{
    a.notation_is_number(crate::arith::Style::Fixed(4), x.bits as u64);
    lemma_float_text_token(entry(a, x));
}

proof fn lemma_bbox_tokens<A: Arithmetic>(a: &A, p: Plane)
    requires
        a.lawful(),
    ensures
        forall|k: int|
            0 <= k < bbox_tokens(a, p).len() ==> one_token(#[trigger] bbox_tokens(a, p)[k]),
{
    reveal_strlit("bbox");
    lemma_entry_token(a, p.bbox_min.0);
    lemma_entry_token(a, p.bbox_min.1);
    lemma_entry_token(a, p.bbox_max.0);
    lemma_entry_token(a, p.bbox_max.1);
}

proof fn lemma_grid_tokens(p: Plane)
    ensures
        forall|k: int| 0 <= k < grid_tokens(p).len() ==> one_token(#[trigger] grid_tokens(p)[k]),
{
    reveal_strlit("grid");
    lemma_decimal_read(p.grid_x as nat);
    lemma_decimal_read(p.grid_y as nat);
}

proof fn lemma_row_tokens<A: Arithmetic>(a: &A, p: Plane, j: int)
    requires
        a.lawful(),
    ensures
        forall|k: int|
            0 <= k < row_tokens(a, p, j).len() ==> one_token(#[trigger] row_tokens(a, p, j)[k]),
{
    assert forall|k: int| 0 <= k < row_tokens(a, p, j).len() implies one_token(
        #[trigger] row_tokens(a, p, j)[k],
    ) by {
        lemma_entry_token(a, p.z[j * p.grid_x + k]);
    }
}

proof fn lemma_spaced_line(tokens: Seq<Seq<char>>)
    requires
        forall|k: int| 0 <= k < tokens.len() ==> one_token(#[trigger] tokens[k]),
    ensures
        one_line(spaced(tokens)),
        tokens_of(spaced(tokens)) == tokens,
{
    lemma_tokens_spaced(tokens);
    let l = spaced(tokens);
    assert forall|k: int| 0 <= k < l.len() implies #[trigger] l[k] != '\n' by {
        assert(l[k] == ' ' || !space(l[k]));
    }
}

proof fn lemma_file_lines<A: Arithmetic>(a: &A, p: Plane)
    requires
        a.lawful(),
    ensures
        forall|k: int| 0 <= k < map_lines(a, p).len() ==> one_line(#[trigger] map_lines(a, p)[k]),
{
    let ls = map_lines(a, p);
    assert forall|k: int| 0 <= k < ls.len() implies one_line(#[trigger] ls[k]) by {
        if k == 0 {
            reveal_strlit("HEIGHTMAP v1");
            assert(ls[k] == magic());
        } else if k == 1 {
            lemma_bbox_tokens(a, p);
            lemma_spaced_line(bbox_tokens(a, p));
        } else if k == 2 {
            lemma_grid_tokens(p);
            lemma_spaced_line(grid_tokens(p));
        } else {
            assert(ls[k] == spaced(row_tokens(a, p, k - 3)));
            lemma_row_tokens(a, p, k - 3);
            lemma_spaced_line(row_tokens(a, p, k - 3));
        }
    }
}

proof fn lemma_file_head<A: Arithmetic>(a: &A, p: Plane)
    requires
        a.lawful(),
    ensures
        head_of(a, map_lines(a, p)) == Ok::<Plane, Seq<char>>(
            Plane { z: Seq::empty(), ..rounded_plane(a, p) },
        ),
{
    let ls = map_lines(a, p);
    reveal_strlit("HEIGHTMAP v1");
    lemma_trimmed(magic());
    assert(ls[0] == magic());
    assert(ls[1] == spaced(bbox_tokens(a, p)));
    assert(ls[2] == spaced(grid_tokens(p)));
    lemma_bbox_tokens(a, p);
    lemma_spaced_line(bbox_tokens(a, p));
    lemma_grid_tokens(p);
    lemma_spaced_line(grid_tokens(p));
    lemma_entry_token(a, p.bbox_min.0);
    lemma_entry_token(a, p.bbox_min.1);
    lemma_entry_token(a, p.bbox_max.0);
    lemma_entry_token(a, p.bbox_max.1);
    lemma_decimal_read(p.grid_x as nat);
    lemma_decimal_read(p.grid_y as nat);
    assert(digit(decimal_of(p.grid_x as nat)[0]));
    assert(digit(decimal_of(p.grid_y as nat)[0]));
}

proof fn lemma_row_heights<A: Arithmetic>(a: &A, p: Plane, j: int, n: int)
    requires
        a.lawful(),
        0 <= n <= p.grid_x,
    ensures
        heights_in(a, row_tokens(a, p, j).take(n)) == Ok::<Seq<Scalar>, Seq<char>>(
            Seq::new(n as nat, |i: int| rounded(a, p.z[j * p.grid_x + i])),
        ),
    decreases n,
{
    let row = row_tokens(a, p, j).take(n);
    if n > 0 {
        lemma_row_heights(a, p, j, n - 1);
        lemma_entry_token(a, p.z[j * p.grid_x + n - 1]);
        assert(row.drop_last() == row_tokens(a, p, j).take(n - 1));
        assert(row.last() == entry(a, p.z[j * p.grid_x + n - 1]));
        assert(Seq::new((n - 1) as nat, |i: int| rounded(a, p.z[j * p.grid_x + i])).push(
            rounded(a, p.z[j * p.grid_x + n - 1]),
        ) == Seq::new(n as nat, |i: int| rounded(a, p.z[j * p.grid_x + i])));
    } else {
        assert(Seq::new(n as nat, |i: int| rounded(a, p.z[j * p.grid_x + i])) == Seq::<
            Scalar,
        >::empty());
    }
}

proof fn lemma_file_rows<A: Arithmetic>(a: &A, p: Plane, n: nat)
    requires
        a.lawful(),
        n <= p.grid_y,
        p.z.len() == p.grid_x * p.grid_y,
    ensures
        0 <= n * p.grid_x <= p.z.len(),
        rows_of(a, map_lines(a, p), n) == Ok::<Seq<Scalar>, Seq<char>>(
            p.z.map_values(|x: Scalar| rounded(a, x)).take(n * p.grid_x),
        ),
    decreases n,
{
    let ls = map_lines(a, p);
    let z = p.z.map_values(|x: Scalar| rounded(a, x));
    assert(0 <= n * p.grid_x <= p.grid_x * p.grid_y) by (nonlinear_arith)
        requires
            0 <= n <= p.grid_y,
            0 <= p.grid_x,
    ;
    if n == 0 {
        assert(z.take(0) == Seq::<Scalar>::empty());
        assert(n * p.grid_x == 0) by (nonlinear_arith)
            requires
                n == 0,
        ;
    } else {
        let j = n - 1;
        lemma_file_rows(a, p, j as nat);
        assert(n * p.grid_x == j * p.grid_x + p.grid_x) by (nonlinear_arith)
            requires
                n == j + 1,
        ;
        let tokens = row_tokens(a, p, j);
        assert(ls[(n + 2) as int] == spaced(tokens));
        lemma_row_tokens(a, p, j);
        lemma_spaced_line(tokens);
        lemma_row_heights(a, p, j, p.grid_x as int);
        assert(tokens.take(p.grid_x as int) == tokens);
        let row = Seq::new(p.grid_x as nat, |i: int| rounded(a, p.z[j * p.grid_x + i]));
        assert(z.take(j * p.grid_x) + row == z.take(n * p.grid_x));
    }
}

/// The size of `x`.
pub open spec fn size(x: int) -> int {
    if x < 0 {
        -x
    } else {
        x
    }
}

/// How many ten-thousandths a text with four digits behind its point denotes.
pub open spec fn ten_thousandths(t: Seq<char>) -> int {
    let s = unsigned_part(t);
    let n = s.len() as int;
    let count = match natural_of(s.take(n - 5) + s.skip(n - 4)) {
        Some(k) => k as int,
        None => 0,
    };
    if t[0] == '-' {
        -count
    } else {
        count
    }
}

/// How far `x` is from what a text denotes, in ten-thousandths of a unit.
pub open spec fn off(x: Scalar, t: Seq<char>) -> int {
    size(10000 * x.units() - ten_thousandths(t) * unit_count())
}

/// Whether four digits are written and read as well as can be: a finite number is written as the
/// nearest ten-thousandth, a text is read as the nearest number, and writing that gives the text
/// again.
pub open spec fn four_digits<A: Arithmetic>(a: &A) -> bool {
    forall|x: Scalar|
        x.finite() ==> {
            let t = #[trigger] entry(a, x);
            let r = single_text(a, t);
            &&& 2 * off(x, t) <= unit_count()
            &&& r.finite()
            &&& forall|y: Scalar| y.finite() ==> off(r, t) <= #[trigger] off(y, t)
            &&& entry(a, r) == t
        }
}

/// Whether `r` is `x` up to half a ten-thousandth and the rounding of its text, and so up to a
/// ten-thousandth.
pub open spec fn kept<A: Arithmetic>(a: &A, x: Scalar, r: Scalar) -> bool {
    let gap = 10000 * size(r.units() - x.units());
    &&& r.finite()
    &&& 2 * gap <= unit_count() + 2 * off(r, entry(a, x))
    &&& gap <= unit_count()
}

proof fn lemma_kept<A: Arithmetic>(a: &A, x: Scalar)
    requires
        four_digits(a),
        x.finite(),
    ensures
        kept(a, x, rounded(a, x)),
        entry(a, rounded(a, x)) == entry(a, x),
{
    let t = entry(a, x);
    let r = single_text(a, t);
    assert(off(r, t) <= off(x, t));
    assert(10000 * (r.units() - x.units()) == 10000 * r.units() - 10000 * x.units());
}

/// Whether a side of the box is longer than a thousandth.
pub open spec fn long_side(lo: Scalar, hi: Scalar) -> bool {
    1000 * (hi.units() - lo.units()) > unit_count()
}

proof fn lemma_side_kept<A: Arithmetic>(a: &A, lo: Scalar, hi: Scalar)
    requires
        four_digits(a),
        lo.finite() && hi.finite(),
        long_side(lo, hi),
    ensures
        !rounded(a, hi).at_most(rounded(a, lo)),
{
    lemma_kept(a, lo);
    lemma_kept(a, hi);
    lemma_units_of_one();
    lemma_units_order(rounded(a, hi), rounded(a, lo));
}

/// A map with finite numbers and sides longer than a thousandth is read back from its text: with
/// the same grid, with every number as it was up to half a ten-thousandth and the rounding of its
/// text, and so that writing it again gives the same text.
pub proof fn lemma_parse_keeps_map<A: Arithmetic>(a: &A, p: Plane)
    requires
        a.lawful(),
        four_digits(a),
        p.grid_x >= 2,
        p.grid_y >= 2,
        p.grid_x * p.grid_y <= u32::MAX,
        p.z.len() == p.grid_x * p.grid_y,
        p.bbox_min.0.finite() && p.bbox_max.0.finite() && long_side(p.bbox_min.0, p.bbox_max.0),
        p.bbox_min.1.finite() && p.bbox_max.1.finite() && long_side(p.bbox_min.1, p.bbox_max.1),
        forall|k: int| 0 <= k < p.z.len() ==> (#[trigger] p.z[k]).finite(),
    ensures
        parsed_map(a, serialized(a, p)) matches Ok(q) && {
            &&& q.grid_x == p.grid_x && q.grid_y == p.grid_y
            &&& kept(a, p.bbox_min.0, q.bbox_min.0) && kept(a, p.bbox_min.1, q.bbox_min.1)
            &&& kept(a, p.bbox_max.0, q.bbox_max.0) && kept(a, p.bbox_max.1, q.bbox_max.1)
            &&& q.z.len() == p.z.len()
            &&& forall|k: int| 0 <= k < p.z.len() ==> kept(a, p.z[k], #[trigger] q.z[k])
            &&& serialized(a, q) == serialized(a, p)
        },
{
    let q = rounded_plane(a, p);
    lemma_parse_serialized(a, p);
    lemma_side_kept(a, p.bbox_min.0, p.bbox_max.0);
    lemma_side_kept(a, p.bbox_min.1, p.bbox_max.1);
    lemma_kept(a, p.bbox_min.0);
    lemma_kept(a, p.bbox_min.1);
    lemma_kept(a, p.bbox_max.0);
    lemma_kept(a, p.bbox_max.1);
    assert forall|k: int| 0 <= k < p.z.len() implies kept(a, p.z[k], #[trigger] q.z[k]) by {
        lemma_kept(a, p.z[k]);
    }
    assert(bbox_tokens(a, q) == bbox_tokens(a, p));
    assert(grid_tokens(q) == grid_tokens(p));
    assert forall|j: int| 0 <= j < p.grid_y implies #[trigger] row_tokens(a, q, j) == row_tokens(
        a,
        p,
        j,
    ) by {
        assert forall|i: int| 0 <= i < p.grid_x implies #[trigger] row_tokens(a, q, j)[i]
            == row_tokens(a, p, j)[i] by {
            let k = j * p.grid_x + i;
            assert(0 <= k < p.grid_x * p.grid_y) by (nonlinear_arith)
                requires
                    k == j * p.grid_x + i,
                    0 <= i < p.grid_x,
                    0 <= j < p.grid_y,
            ;
            lemma_kept(a, p.z[k]);
        }
        assert(row_tokens(a, q, j) =~= row_tokens(a, p, j));
    }
    assert(map_lines(a, q) =~= map_lines(a, p)) by {
        assert forall|k: int| 0 <= k < map_lines(a, p).len() implies #[trigger] map_lines(a, q)[k]
            == map_lines(a, p)[k] by {
            if k >= 3 {
                assert(map_lines(a, q)[k] == spaced(row_tokens(a, q, k - 3)));
                assert(map_lines(a, p)[k] == spaced(row_tokens(a, p, k - 3)));
            }
        }
    }
}

} // verus!
