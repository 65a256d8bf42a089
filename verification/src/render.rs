use vstd::prelude::*;
use crate::errors::Error;
use crate::parse::Point;
use crate::scene::{clamp_i32, Scene};

verus! {

/// An RGB color.
#[derive(Clone, Copy, PartialEq, Eq, Structural, Debug)]
pub struct Color {
    /// Red channel.
    pub r: u8,
    /// Green channel.
    pub g: u8,
    /// Blue channel.
    pub b: u8,
}

/// Styling for the renderer, passed in explicitly so the scene can be
/// drawn with alternate colors or marker sizes.
#[derive(Clone, Copy, PartialEq, Eq, Structural, Debug)]
pub struct RenderConfig {
    /// Canvas fill color.
    pub background: Color,
    /// Marker and polyline color.
    pub foreground: Color,
    /// Radius of each point marker, in pixels.
    pub marker_radius: u32,
}

/// The styling of the reference renderer: white markers and path on a
/// black canvas, with a three-pixel marker radius.
pub fn default_config() -> (r: RenderConfig)
    ensures
        r == (RenderConfig {
            background: Color { r: 0, g: 0, b: 0 },
            foreground: Color { r: 255, g: 255, b: 255 },
            marker_radius: 3u32,
        }),
{
    RenderConfig {
        background: Color { r: 0, g: 0, b: 0 },
        foreground: Color { r: 255, g: 255, b: 255 },
        marker_radius: 3,
    }
}

/// A pixel position on the canvas.
#[derive(Clone, Copy, PartialEq, Eq, Structural, Debug)]
pub struct PixelPoint {
    /// Horizontal pixel coordinate.
    pub x: i32,
    /// Vertical pixel coordinate.
    pub y: i32,
}

/// Where a point lands on the canvas: each coordinate rounded to the
/// nearest integer, half away from zero, clamped to the canvas type.
pub open spec fn pixel_of(p: Point) -> PixelPoint {
    PixelPoint { x: clamp_i32(p.x.round()) as i32, y: clamp_i32(p.y.round()) as i32 }
}

/// The segments of the open polyline through `path` in order: one segment
/// between each pair of consecutive pixels, and none back to the start.
pub open spec fn segments_of(path: Seq<PixelPoint>) -> Seq<(PixelPoint, PixelPoint)> {
    Seq::new(
        if path.len() == 0 {
            0
        } else {
            (path.len() - 1) as nat
        },
        |i: int| (path[i], path[i + 1]),
    )
}

/// Everything one rendering session draws, in order: a filled canvas, a
/// marker at each scene point, a marker at each tour point, and the open
/// polyline through the tour. Composing the plan is pure; executing it
/// against a raster backend is the caller's one-shot, terminal step.
pub struct RenderPlan {
    /// Canvas width in pixels.
    pub width: u32,
    /// Canvas height in pixels.
    pub height: u32,
    /// Canvas fill color.
    pub background: Color,
    /// Marker and polyline color.
    pub foreground: Color,
    /// Radius of each marker, in pixels.
    pub marker_radius: u32,
    /// One marker per scene point, in input order.
    pub point_markers: Vec<PixelPoint>,
    /// One marker per tour point, in visiting order; the polyline joins
    /// them consecutively and does not close back to the first.
    pub tour_pixels: Vec<PixelPoint>,
}

/// Executable pixel placement.
pub fn pixel_of_point(p: &Point) -> (r: PixelPoint)
    requires
        p.wf(),
    ensures
        r == pixel_of(*p),
{
    let rx = p.x.round_i64();
    let ry = p.y.round_i64();
    PixelPoint { x: clamp_pixel(rx), y: clamp_pixel(ry) }
}

/// Executable clamp into the canvas coordinate range.
fn clamp_pixel(v: i64) -> (r: i32)
    ensures
        r as int == clamp_i32(v as int),
{
    if v > i32::MAX as i64 {
        i32::MAX
    } else if v < i32::MIN as i64 {
        i32::MIN
    } else {
        v as i32
    }
}

/// Maps points to their canvas pixels.
#[verifier::loop_isolation(false)]
fn pixels_of_points(ps: &Vec<Point>) -> (r: Vec<PixelPoint>)
    requires
        forall|i: int| 0 <= i < ps@.len() ==> (#[trigger] ps@[i]).wf(),
    ensures
        r@ == ps@.map_values(|p: Point| pixel_of(p)),
{
    let mut out: Vec<PixelPoint> = Vec::new();
    let mut i: usize = 0;
    while i < ps.len()
        invariant
            i <= ps@.len(),
            out@.len() == i,
            forall|k: int| 0 <= k < i ==> out@[k] == pixel_of(#[trigger] ps@[k]),
        decreases ps@.len() - i,
    {
        let px = pixel_of_point(&ps[i]);
        out.push(px);
        i = i + 1;
    }
    proof {
        assert(out@ =~= ps@.map_values(|p: Point| pixel_of(p)));
    }
    out
}

/// Composes the render plan for a scene and a tour of it. Fails with the
/// setup error exactly when the canvas would be zero-sized or negative in
/// either dimension (such a canvas cannot be created); the empty point set
/// never reaches here, since no scene can be derived from it.
pub fn build_render_plan(scene: &Scene, tour: &Vec<Point>, cfg: &RenderConfig) -> (r: Result<
    RenderPlan,
    Error,
>)
    requires
        scene.wf(),
        forall|i: int| 0 <= i < tour@.len() ==> (#[trigger] tour@[i]).wf(),
    ensures
        (scene.width <= 0 || scene.height <= 0) <==> r == Err::<RenderPlan, Error>(
            Error::RenderSetupError,
        ),
        (scene.width > 0 && scene.height > 0) <==> r is Ok,
        r is Ok ==> ({
            let plan = r->Ok_0;
            &&& plan.width as int == scene.width as int
            &&& plan.height as int == scene.height as int
            &&& plan.background == cfg.background
            &&& plan.foreground == cfg.foreground
            &&& plan.marker_radius == cfg.marker_radius
            &&& plan.point_markers@ == scene.points@.map_values(|p: Point| pixel_of(p))
            &&& plan.tour_pixels@ == tour@.map_values(|p: Point| pixel_of(p))
        }),
{
    if scene.width <= 0 || scene.height <= 0 {
        return Err(Error::RenderSetupError);
    }
    let point_markers = pixels_of_points(&scene.points);
    let tour_pixels = pixels_of_points(tour);
    Ok(
        RenderPlan {
            width: scene.width as u32,
            height: scene.height as u32,
            background: cfg.background,
            foreground: cfg.foreground,
            marker_radius: cfg.marker_radius,
            point_markers,
            tour_pixels,
        },
    )
}

/// Selects the tour's points out of a scene by their indices, in visiting
/// order. Returns nothing exactly when some index is out of range.
#[verifier::loop_isolation(false)]
pub fn tour_from_indices(scene: &Scene, order: &Vec<usize>) -> (r: Option<Vec<Point>>)
    requires
        scene.wf(),
    ensures
        r is Some <==> (forall|i: int|
            0 <= i < order@.len() ==> (#[trigger] order@[i]) < scene.points@.len()),
        r is Some ==> r->Some_0@ == order@.map_values(|i: usize| scene.points@[i as int]),
        r is Some ==> forall|i: int|
            0 <= i < r->Some_0@.len() ==> (#[trigger] r->Some_0@[i]).wf(),
{
    let mut out: Vec<Point> = Vec::new();
    let mut i: usize = 0;
    while i < order.len()
        invariant
            i <= order@.len(),
            out@.len() == i,
            forall|k: int| 0 <= k < i ==> (#[trigger] order@[k]) < scene.points@.len(),
            forall|k: int| 0 <= k < i ==> out@[k] == scene.points@[#[trigger] order@[k] as int],
        decreases order@.len() - i,
    {
        let idx = order[i];
        if idx >= scene.points.len() {
            return None;
        }
        out.push(scene.points[idx]);
        i = i + 1;
    }
    proof {
        assert(out@ =~= order@.map_values(|i: usize| scene.points@[i as int]));
    }
    Some(out)
}

/// The segments of a plan's tour polyline, in drawing order.
#[verifier::loop_isolation(false)]
pub fn tour_segments(plan: &RenderPlan) -> (r: Vec<(PixelPoint, PixelPoint)>)
    ensures
        r@ == segments_of(plan.tour_pixels@),
{
    let mut out: Vec<(PixelPoint, PixelPoint)> = Vec::new();
    let n: usize = plan.tour_pixels.len();
    if n == 0 {
        proof {
            assert(out@ =~= segments_of(plan.tour_pixels@));
        }
        return out;
    }
    let mut i: usize = 0;
    while i < n - 1
        invariant
            n >= 1,
            i <= n - 1,
            out@.len() == i,
            forall|k: int|
                0 <= k < i ==> out@[k] == (plan.tour_pixels@[k], plan.tour_pixels@[k + 1]),
        decreases n - i,
    {
        out.push((plan.tour_pixels[i], plan.tour_pixels[i + 1]));
        i = i + 1;
    }
    proof {
        assert(out@ =~= segments_of(plan.tour_pixels@));
    }
    out
}

/// A tour of `n` points is drawn as exactly `n` markers and an open
/// polyline of `n - 1` segments: segment `i` joins the pixels of tour
/// points `i` and `i + 1`, and no segment returns to the first point.
pub proof fn lemma_tour_layer_shape(plan: RenderPlan, tour: Seq<Point>)
    requires
        plan.tour_pixels@ == tour.map_values(|p: Point| pixel_of(p)),
        tour.len() >= 1,
    ensures
        plan.tour_pixels@.len() == tour.len(),
        segments_of(plan.tour_pixels@).len() == tour.len() - 1,
        forall|i: int|
            0 <= i < tour.len() - 1 ==> segments_of(plan.tour_pixels@)[i] == (
            pixel_of(#[trigger] tour[i]),
            pixel_of(tour[i + 1]),
            ),
{
}

} // verus!
