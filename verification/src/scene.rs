use vstd::prelude::*;
use crate::errors::Error;
use crate::parse::{parse_points, parse_points_spec, Point};

verus! {

/// Largest truncated x coordinate of a non-empty point sequence.
pub open spec fn max_trunc_x(ps: Seq<Point>) -> int
    recommends
        ps.len() >= 1,
    decreases ps.len(),
{
    if ps.len() <= 1 {
        ps[0].x.trunc()
    } else {
        let rest = max_trunc_x(ps.drop_last());
        if ps.last().x.trunc() > rest {
            ps.last().x.trunc()
        } else {
            rest
        }
    }
}

/// Largest truncated y coordinate of a non-empty point sequence.
pub open spec fn max_trunc_y(ps: Seq<Point>) -> int
    recommends
        ps.len() >= 1,
    decreases ps.len(),
{
    if ps.len() <= 1 {
        ps[0].y.trunc()
    } else {
        let rest = max_trunc_y(ps.drop_last());
        if ps.last().y.trunc() > rest {
            ps.last().y.trunc()
        } else {
            rest
        }
    }
}

/// `v` brought into the canvas coordinate range.
pub open spec fn clamp_i32(v: int) -> int {
    if v > i32::MAX as int {
        i32::MAX as int
    } else if v < i32::MIN as int {
        i32::MIN as int
    } else {
        v
    }
}

/// A point set with its derived canvas bounds: the smallest integer box,
/// anchored at the origin, whose truncated coordinate maxima it reaches.
pub struct Scene {
    /// The points, in input order.
    pub points: Vec<Point>,
    /// Truncated maximum of the x coordinates (clamped to the canvas type).
    pub width: i32,
    /// Truncated maximum of the y coordinates (clamped to the canvas type).
    pub height: i32,
}

impl Scene {
    /// Well-formedness: at least one point, all points well-formed, and the
    /// bounds are exactly the clamped truncated maxima.
    pub open spec fn wf(self) -> bool {
        &&& self.points@.len() >= 1
        &&& forall|i: int| 0 <= i < self.points@.len() ==> (#[trigger] self.points@[i]).wf()
        &&& self.width as int == clamp_i32(max_trunc_x(self.points@))
        &&& self.height as int == clamp_i32(max_trunc_y(self.points@))
    }

    /// Derives the scene of a point set: fails on zero points (the maximum
    /// is undefined), and otherwise sizes the canvas by the truncated
    /// maxima of the coordinates.
    #[verifier::loop_isolation(false)]
    pub fn new(points: Vec<Point>) -> (r: Result<Scene, Error>)
        requires
            forall|i: int| 0 <= i < points@.len() ==> (#[trigger] points@[i]).wf(),
        ensures
            points@.len() == 0 ==> r == Err::<Scene, Error>(Error::EmptyPointSet),
            points@.len() >= 1 ==> r is Ok,
            r is Ok ==> r->Ok_0.wf() && r->Ok_0.points@ == points@,
    {
        let n: usize = points.len();
        if n == 0 {
            return Err(Error::EmptyPointSet);
        }
        let mut wmax: i64 = points[0].x.trunc_i64();
        let mut hmax: i64 = points[0].y.trunc_i64();
        let mut i: usize = 1;
        while i < n
            invariant
                1 <= i <= n,
                wmax as int == max_trunc_x(points@.take(i as int)),
                hmax as int == max_trunc_y(points@.take(i as int)),
            decreases n - i,
        {
            proof {
                assert(points@.take(i as int + 1).drop_last() =~= points@.take(i as int));
                assert(points@.take(i as int + 1).last() == points@[i as int]);
            }
            let tx = points[i].x.trunc_i64();
            if tx > wmax {
                wmax = tx;
            }
            let ty = points[i].y.trunc_i64();
            if ty > hmax {
                hmax = ty;
            }
            i = i + 1;
        }
        proof {
            assert(points@.take(n as int) =~= points@);
        }
        let width: i32 = clamp_to_i32(wmax);
        let height: i32 = clamp_to_i32(hmax);
        Ok(Scene { points, width, height })
    }
}

/// Executable clamp into the canvas coordinate range.
fn clamp_to_i32(v: i64) -> (r: i32)
    ensures
        r as int == clamp_i32(v as int),
{
    if v > i32::MAX as i64 {
        i32::MAX
    } else if v < i32::MIN as i64 {
        i32::MIN
    } else {
        v as i32
    }
}

/// The truncated maximum dominates every point's truncated coordinates.
pub proof fn lemma_max_trunc_ge(ps: Seq<Point>, i: int)
    requires
        0 <= i < ps.len(),
    ensures
        max_trunc_x(ps) >= ps[i].x.trunc(),
        max_trunc_y(ps) >= ps[i].y.trunc(),
    decreases ps.len(),
{
    if ps.len() > 1 && i < ps.len() - 1 {
        lemma_max_trunc_ge(ps.drop_last(), i);
        assert(ps.drop_last()[i] == ps[i]);
    }
}

/// The canvas bounds of a scene whose truncated maxima fit the canvas type
/// equal those maxima exactly (no rounding up), and so dominate every
/// point's truncated coordinates.
pub proof fn lemma_scene_bounds(scene: Scene)
    requires
        scene.wf(),
        i32::MIN <= max_trunc_x(scene.points@) <= i32::MAX,
        i32::MIN <= max_trunc_y(scene.points@) <= i32::MAX,
    ensures
        scene.width as int == max_trunc_x(scene.points@),
        scene.height as int == max_trunc_y(scene.points@),
        forall|i: int|
            0 <= i < scene.points@.len() ==> scene.width as int >= (
            #[trigger] scene.points@[i]).x.trunc() && scene.height as int
                >= scene.points@[i].y.trunc(),
{
    assert forall|i: int|
        0 <= i < scene.points@.len() implies scene.width as int >= (
    #[trigger] scene.points@[i]).x.trunc() && scene.height as int
        >= scene.points@[i].y.trunc() by {
        lemma_max_trunc_ge(scene.points@, i);
    }
}

/// Parses the input text and derives its scene: the first stage of the
/// pipeline. Empty input and unparseable records fail as parsing does; a
/// parse that yields points always yields a scene.
pub fn prepare_scene(input: &[u8]) -> (r: Result<Scene, Error>)
    ensures
        parse_points_spec(input@) is Err ==> r == Err::<Scene, Error>(
            parse_points_spec(input@)->Err_0,
        ),
        parse_points_spec(input@) is Ok ==> r is Ok && r->Ok_0.wf() && r->Ok_0.points@
            == parse_points_spec(input@)->Ok_0,
{
    let points = match parse_points(input) {
        Ok(ps) => ps,
        Err(e) => {
            return Err(e);
        },
    };
    match Scene::new(points) {
        Ok(sc) => Ok(sc),
        Err(e) => {
            proof {
                assert(false);
            }
            Err(e)
        },
    }
}

} // verus!
