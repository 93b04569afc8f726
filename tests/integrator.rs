use raytrace_rust::integrator::{PathAction, PathEvent, PathState, Radiance, MAX_DEPTH};

#[test]
fn depth_bound_yields_black() {
    assert_eq!(PathState::at_depth(MAX_DEPTH, MAX_DEPTH).next(), PathAction::Finish(Radiance::Black));
    assert_eq!(PathState::at_depth(MAX_DEPTH + 7, MAX_DEPTH).next(), PathAction::Finish(Radiance::Black));
    assert_eq!(PathState::at_depth(3, 0).next(), PathAction::Finish(Radiance::Black));
}

#[test]
fn fresh_path_traces() {
    let p = PathState::new(MAX_DEPTH);
    assert_eq!(p.depth, 0);
    assert_eq!(p.next(), PathAction::Trace);
}

#[test]
fn events_decide_the_outcome() {
    let mut p = PathState::new(MAX_DEPTH);
    assert_eq!(p.advance(PathEvent::Missed), PathAction::Finish(Radiance::Background));
    assert_eq!(p.advance(PathEvent::Absorbed), PathAction::Finish(Radiance::Black));
    assert_eq!(p.advance(PathEvent::Scattered), PathAction::Trace);
    assert_eq!(p.depth, 1);
}

#[test]
fn scattering_stops_at_the_bound() {
    let mut p = PathState::new(3);
    assert_eq!(p.advance(PathEvent::Scattered), PathAction::Trace);
    assert_eq!(p.advance(PathEvent::Scattered), PathAction::Trace);
    assert_eq!(p.advance(PathEvent::Scattered), PathAction::Finish(Radiance::Black));
    assert_eq!(p.depth, 3);
}
