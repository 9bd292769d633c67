//! What the display shows of a job, a tool and a time.
use vstd::prelude::*;
use crate::arith::{plus, Arithmetic, Scalar};
use crate::grbl::commands::jog_letter;
use crate::grbl::state::{spec_dist, JobState, Segment, Vec3};
use crate::measure::{gives, lemma_worth_of_constants, precise, worth};
use crate::text::decimal_of;
use crate::ui::app::{key_axis, Key};
use crate::ui::color::{rgba, Color};
use crate::ui::editor::{
    length_of, lemma_step_passes_a_line, sim_stepped, time_text, two_digits, EditorState,
};
use crate::ui::scene::{tool_moved, trail_after, TRAIL_POINTS};
use crate::ui::strokes::{box_strokes, path_strokes, trail_strokes};

verus! {

/// Every move is drawn from where it starts to where it ends. One that leaves the travel is red,
/// whatever else holds of it, and no other is.
pub proof fn lemma_path_drawn<A: Arithmetic>(
    a: &A,
    segments: Seq<Segment>,
    violations: Seq<bool>,
    counts: Seq<u16>,
    bmin: Vec3,
    bmax: Vec3,
    show_heatmap: bool,
    i: int,
)
    requires
        0 <= i < segments.len(),
    ensures
        ({
            let drawn = path_strokes(a, segments, violations, counts, bmin, bmax, show_heatmap);
            &&& drawn.len() == segments.len()
            &&& drawn[i].start == segments[i].start
            &&& drawn[i].end == segments[i].end
            &&& drawn[i].color == rgba(0xff, 0x22, 0x22, 0xff) <==> i < violations.len()
                && violations[i]
        }),
{
}

/// Whether `p` is a corner of the box.
pub open spec fn corner(bmin: Vec3, bmax: Vec3, p: Vec3) -> bool {
    &&& p.x == bmin.x || p.x == bmax.x
    &&& p.y == bmin.y || p.y == bmax.y
    &&& p.z == bmin.z || p.z == bmax.z
}

/// Along how many axes two points differ.
pub open spec fn axes_apart(p: Vec3, q: Vec3) -> int {
    (if p.x == q.x {
        0int
    } else {
        1
    }) + (if p.y == q.y {
        0int
    } else {
        1
    }) + (if p.z == q.z {
        0int
    } else {
        1
    })
}

/// The strokes of a box are its twelve edges: each joins two corners that differ along one axis, and
/// no two join the same corners.
pub proof fn lemma_box_edges(bmin: Vec3, bmax: Vec3, color: Color, width: Scalar, i: int, j: int)
    requires
        bmin.x != bmax.x && bmin.y != bmax.y && bmin.z != bmax.z,
        0 <= i < j < 12,
    ensures
        ({
            let edges = box_strokes(bmin, bmax, color, width);
            &&& edges.len() == 12
            &&& corner(bmin, bmax, edges[i].start) && corner(bmin, bmax, edges[i].end)
            &&& corner(bmin, bmax, edges[j].start) && corner(bmin, bmax, edges[j].end)
            &&& axes_apart(edges[i].start, edges[i].end) == 1
            &&& axes_apart(edges[j].start, edges[j].end) == 1
            &&& (edges[i].start, edges[i].end) != (edges[j].start, edges[j].end)
            &&& (edges[i].start, edges[i].end) != (edges[j].end, edges[j].start)
        }),
{
}

/// The trail is the way that the tool has come: it ends where the tool was seen to move to, keeps
/// what was before it in its order, and is never longer than its most.
pub proof fn lemma_trail_follows(points: Seq<Vec3>, last: Vec3, p: Vec3)
    requires
        points.len() <= TRAIL_POINTS,
    ensures
        ({
            let after = trail_after(points, last, p, false);
            &&& after.len() <= TRAIL_POINTS
            &&& !tool_moved(last, p, false) ==> after == points
            &&& tool_moved(last, p, false) ==> {
                &&& after.len() > 0 && after.last() == p
                &&& after.len() == points.len() + 1 || after.len() == TRAIL_POINTS
                &&& forall|k: int|
                    0 <= k < after.len() - 1 ==> #[trigger] after[k] == points[points.len() + 1
                        - after.len() + k]
            }
        }),
{
    assert(TRAIL_POINTS > 0);
}

/// The strokes of a trail lead from each point to the next, without a gap.
pub proof fn lemma_trail_unbroken<A: Arithmetic>(a: &A, points: Seq<Vec3>, k: int)
    requires
        0 <= k < points.len() - 1,
    ensures
        ({
            let drawn = trail_strokes(a, points);
            &&& drawn.len() == points.len() - 1
            &&& drawn[k].start == points[k] && drawn[k].end == points[k + 1]
            &&& k + 1 < drawn.len() ==> drawn[k].end == drawn[k + 1].start
        }),
{
}

/// The hours, minutes and seconds that are shown make up the time; there are never sixty minutes or
/// seconds, and hours are shown only where there is a whole one.
pub proof fn lemma_time_shown(secs: nat) -> (t: (nat, nat, nat))
    ensures
        ({
            let (h, m, s) = t;
            &&& secs == 3600 * h + 60 * m + s
            &&& m < 60 && s < 60
            &&& time_text(secs) == if h > 0 {
                decimal_of(h) + "h "@ + two_digits(m) + "m "@ + two_digits(s) + "s"@
            } else {
                decimal_of(m) + "m "@ + two_digits(s) + "s"@
            }
        }),
{
    (secs / 3600, (secs % 3600) / 60, secs % 60)
}

/// A step of the simulation runs the rest of the line that it is at, and leaves the tool where the
/// last move of that line ends; a locked height is shown as that of the surface. At the end of the
/// path it goes behind the last line.
pub proof fn lemma_simulation_steps(s: EditorState, job: &JobState)
    requires
        job.segments@.len() <= usize::MAX,
        job.lines@.len() <= usize::MAX,
    ensures
        ({
            let t = sim_stepped(s, job);
            let segs = job.segments@;
            &&& s.sim_seg < segs.len() ==> {
                let (from, to) = (s.sim_seg as int, t.sim_seg as int);
                &&& from < to <= segs.len()
                &&& forall|k: int| from <= k < to ==> (#[trigger] segs[k]).line == segs[from].line
                &&& to < segs.len() ==> segs[to].line != segs[from].line
                &&& t.sim_pos.x == segs[to - 1].end.x
                &&& t.sim_pos.y == segs[to - 1].end.y
                &&& !s.z_locked ==> t.sim_pos.z == segs[to - 1].end.z
                &&& t.sim_frac == (Scalar { bits: 0 })
            }
            &&& s.sim_seg >= segs.len() ==> t.sim_line == job.lines@.len() && t.sim_seg == s.sim_seg
                && t.sim_pos == s.sim_pos
        }),
{
    if s.sim_seg < job.segments@.len() {
        lemma_step_passes_a_line(job.segments@, s.sim_seg as int);
    }
}

/// The sum of the lengths of the segments.
pub open spec fn lengths<A: Arithmetic>(a: &A, segments: Seq<Segment>) -> real
    decreases segments.len(),
{
    if segments.len() == 0 {
        0 as real
    } else {
        lengths(a, segments.drop_last()) + worth(
            spec_dist(a, segments.last().start, segments.last().end),
        )
    }
}

/// The length of a path is the sum of the distances from the start to the end of each segment, up to
/// rounding.
pub proof fn lemma_path_length<A: Arithmetic>(
    a: &A,
    segments: Seq<Segment>,
    m: real,
    bound: real,
    eps: real,
)
    requires
        precise(a, bound, eps),
        eps >= 0 as real,
        m >= 0 as real,
        forall|k: int|
            0 <= k < segments.len() ==> {
                let l = spec_dist(a, (#[trigger] segments[k]).start, segments[k].end);
                l.finite() && 0 as real <= worth(l) <= m
            },
        segments.len() as real * (m + eps) <= bound,
    ensures
        gives(length_of(a, segments), lengths(a, segments), segments.len() as real * eps),
        0 as real <= lengths(a, segments) <= segments.len() as real * m,
    decreases segments.len(),
{
    lemma_worth_of_constants();
    let n = segments.len() as real;
    if segments.len() > 0 {
        let front = segments.drop_last();
        let q = front.len() as real;
        assert(q == n - 1 as real);
        assert(n * (m + eps) == q * (m + eps) + m + eps) by (nonlinear_arith)
            requires
                q == n - 1 as real,
        ;
        assert(n * eps == q * eps + eps && n * m == q * m + m) by (nonlinear_arith)
            requires
                q == n - 1 as real,
        ;
        assert(q * (m + eps) == q * m + q * eps) by (nonlinear_arith);
        assert forall|k: int| 0 <= k < front.len() implies {
            let l = spec_dist(a, (#[trigger] front[k]).start, front[k].end);
            l.finite() && 0 as real <= worth(l) <= m
        } by {
            assert(front[k] == segments[k]);
        }
        lemma_path_length(a, front, m, bound, eps);
        let rest = length_of(a, front);
        let last = segments[segments.len() - 1];
        let l = spec_dist(a, last.start, last.end);
        assert(gives(plus(a, rest, l), worth(rest) + worth(l), eps));
    } else {
        assert(0 as real * eps == 0 as real && 0 as real * m == 0 as real);
    }
}

/// Keys that lie opposite jog the same axis in opposite directions: the arrows to the sides the
/// first, the others the second, and the page keys the height. Up, right and away are forwards.
pub proof fn lemma_keys_jog()
    ensures
        key_axis(Key::ArrowRight) matches Some(r) && jog_letter(r) == ('X', true),
        key_axis(Key::ArrowLeft) matches Some(l) && jog_letter(l) == ('X', false),
        key_axis(Key::ArrowUp) matches Some(u) && jog_letter(u) == ('Y', true),
        key_axis(Key::ArrowDown) matches Some(d) && jog_letter(d) == ('Y', false),
        key_axis(Key::PageUp) matches Some(u) && jog_letter(u) == ('Z', true),
        key_axis(Key::PageDown) matches Some(d) && jog_letter(d) == ('Z', false),
        key_axis(Key::Space) is None,
{
}

} // verus!
