use pathfind::errors::Error;
use pathfind::parse::{format_points, parse_points};
use pathfind::render::{build_render_plan, default_config, tour_from_indices, tour_segments};
use pathfind::scene::{prepare_scene, Scene};

#[test]
fn empty_input_fails() {
    assert_eq!(parse_points(b""), Err(Error::EmptyInput));
}

#[test]
fn record_without_comma_fails() {
    assert_eq!(parse_points(b"1,2;3"), Err(Error::MalformedRecord));
}

#[test]
fn non_numeric_coordinate_fails() {
    assert_eq!(parse_points(b"1,a;2,3"), Err(Error::InvalidNumber));
}

#[test]
fn first_record_error_wins() {
    assert_eq!(parse_points(b"xx;1,2"), Err(Error::MalformedRecord));
    assert_eq!(parse_points(b";"), Err(Error::MalformedRecord));
    assert_eq!(parse_points(b"1,2;"), Err(Error::MalformedRecord));
}

#[test]
fn square_scene_is_ten_by_ten() {
    let scene = prepare_scene(b"0,0;10,0;10,10;0,10").unwrap();
    assert_eq!(scene.width, 10);
    assert_eq!(scene.height, 10);
    assert_eq!(scene.points.len(), 4);
}

#[test]
fn bounds_are_truncated_maxima_exactly() {
    // truncation toward zero, no rounding up: 3.9 contributes 3, 7.8 contributes 7
    let scene = prepare_scene(b"3.9,2.2;1.1,7.8").unwrap();
    assert_eq!(scene.width, 3);
    assert_eq!(scene.height, 7);
}

#[test]
fn empty_point_set_yields_no_scene() {
    assert!(matches!(Scene::new(Vec::new()), Err(Error::EmptyPointSet)));
    assert!(matches!(prepare_scene(b""), Err(Error::EmptyInput)));
}

#[test]
fn zero_sized_canvas_fails_before_any_drawing() {
    let scene = prepare_scene(b"0.5,0.5").unwrap();
    assert_eq!(scene.width, 0);
    let cfg = default_config();
    let tour = scene.points.clone();
    assert!(matches!(
        build_render_plan(&scene, &tour, &cfg),
        Err(Error::RenderSetupError)
    ));
}

#[test]
fn four_point_tour_draws_four_markers_and_open_polyline() {
    let scene = prepare_scene(b"0,0;10,0;10,10;0,10").unwrap();
    let order: Vec<usize> = vec![0, 1, 2, 3];
    let tour = tour_from_indices(&scene, &order).unwrap();
    let cfg = default_config();
    let plan = build_render_plan(&scene, &tour, &cfg).unwrap();
    assert_eq!(plan.point_markers.len(), 4);
    assert_eq!(plan.tour_pixels.len(), 4);
    let segs = tour_segments(&plan);
    assert_eq!(segs.len(), 3);
    // consecutive points are joined, and the path does not close
    assert_eq!((segs[0].0.x, segs[0].0.y), (0, 0));
    assert_eq!((segs[0].1.x, segs[0].1.y), (10, 0));
    assert_eq!((segs[2].1.x, segs[2].1.y), (0, 10));
    assert_ne!(segs[2].1, segs[0].0);
}

#[test]
fn tour_respects_visiting_order() {
    let scene = prepare_scene(b"0,0;10,0;10,10;0,10").unwrap();
    let order: Vec<usize> = vec![2, 0, 3, 1];
    let tour = tour_from_indices(&scene, &order).unwrap();
    assert_eq!((tour[0].x.ipart, tour[0].y.ipart), (10, 10));
    assert_eq!((tour[1].x.ipart, tour[1].y.ipart), (0, 0));
}

#[test]
fn out_of_range_tour_index_is_rejected() {
    let scene = prepare_scene(b"0,0;1,1").unwrap();
    let order: Vec<usize> = vec![0, 2];
    assert!(tour_from_indices(&scene, &order).is_none());
}

#[test]
fn markers_round_to_nearest_pixel() {
    let scene = prepare_scene(b"0.5,1.4;2.5,-0.5").unwrap();
    let cfg = default_config();
    let tour = Vec::new();
    let plan = build_render_plan(&scene, &tour, &cfg).unwrap();
    // half rounds away from zero, in both directions
    assert_eq!((plan.point_markers[0].x, plan.point_markers[0].y), (1, 1));
    assert_eq!((plan.point_markers[1].x, plan.point_markers[1].y), (3, -1));
}

#[test]
fn default_styling_matches_reference() {
    let cfg = default_config();
    assert_eq!((cfg.background.r, cfg.background.g, cfg.background.b), (0, 0, 0));
    assert_eq!(
        (cfg.foreground.r, cfg.foreground.g, cfg.foreground.b),
        (255, 255, 255)
    );
    assert_eq!(cfg.marker_radius, 3);
}

#[test]
fn format_then_parse_recovers_points() {
    let pts = parse_points(b"1.50,-2.25;0,3;+4.5e1,-0.125").unwrap();
    let text = format_points(&pts);
    let back = parse_points(&text).unwrap();
    assert_eq!(pts, back);
}

#[test]
fn formatting_keeps_order_and_digits() {
    let pts = parse_points(b"1.50,0;0.05,2").unwrap();
    let text = format_points(&pts);
    assert_eq!(text, b"1.50,0;0.05,2".to_vec());
}
