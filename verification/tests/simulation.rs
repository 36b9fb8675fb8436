use std::collections::HashMap;

use blobber::math::point::Point;
use blobber::math::rect::Rect;
use blobber::simulation::world::{InputEvent, Simulation};

#[test]
fn test_simulate_no_input_advances() {
    let mut sim = Simulation::new();
    let inputs: HashMap<u32, Vec<InputEvent>> = HashMap::new();
    let events = sim.simulate(&inputs, 16);
    assert_eq!(events.len(), 0);

    // both bodies took exactly one integration step: at rest with no
    // forces, they stay put but their swept boxes are freshly computed
    let blobs = sim.objects(Rect::new(Point::new(0, 0), Point::new(1, 1)));
    assert_eq!(blobs.len(), 2);
    assert_eq!(blobs[0].circle.pos, Point::new(100, 100));
    assert_eq!(blobs[1].circle.pos, Point::new(140, 100));
    assert_eq!(blobs[0].velocity, Point::new(0, 0));
    assert_eq!(
        blobs[0].collision_aabb,
        Rect::new(Point::new(90, 90), Point::new(110, 110))
    );
    assert_eq!(
        blobs[1].collision_aabb,
        Rect::new(Point::new(130, 90), Point::new(150, 110))
    );
}

#[test]
fn test_simulate_applies_inputs() {
    let mut sim = Simulation::new();
    let mut inputs: HashMap<u32, Vec<InputEvent>> = HashMap::new();
    inputs.insert(0, vec![InputEvent::Forward]);
    inputs.insert(1, vec![InputEvent::TurnRight]);
    let events = sim.simulate(&inputs, 16);
    assert_eq!(events.len(), 0);

    let blobs = sim.objects(Rect::new(Point::new(0, 0), Point::new(1, 1)));
    // forward thrust along the zero heading: velocity grows on x only
    assert_eq!(blobs[0].velocity, Point::new(1, 0));
    assert_eq!(blobs[0].circle.pos, Point::new(100, 100));
    // the turn spins the second body up and rotates it a little
    assert_eq!(blobs[1].angular_velocity, 78);
    assert_eq!(blobs[1].rotation, 1);
    // forces were consumed by the step
    assert_eq!(blobs[0].force, Point::new(0, 0));
    assert_eq!(blobs[1].angular_force, 0);
}

#[test]
fn test_simulate_ignores_stale_ids() {
    let mut sim = Simulation::new();
    let mut inputs: HashMap<u32, Vec<InputEvent>> = HashMap::new();
    inputs.insert(9, vec![InputEvent::Forward]);
    let events = sim.simulate(&inputs, 16);
    assert_eq!(events.len(), 0);
    let blobs = sim.objects(Rect::new(Point::new(0, 0), Point::new(1, 1)));
    assert_eq!(blobs[0].velocity, Point::new(0, 0));
    assert_eq!(blobs[1].velocity, Point::new(0, 0));
}

#[test]
fn test_find_blob_mut() {
    let mut sim = Simulation::new();
    assert_eq!(sim.find_blob_mut(0), Some(0));
    assert_eq!(sim.find_blob_mut(1), Some(1));
    assert_eq!(sim.find_blob_mut(9), None);
}

#[test]
fn test_collision_candidates() {
    let mut sim = Simulation::new();
    let inputs: HashMap<u32, Vec<InputEvent>> = HashMap::new();
    sim.simulate(&inputs, 16);
    // the default bodies start well apart
    assert_eq!(sim.collision_candidates().len(), 0);

    // drive the first body toward the second until their swept boxes meet
    let mut forward: HashMap<u32, Vec<InputEvent>> = HashMap::new();
    forward.insert(0, vec![InputEvent::Forward]);
    let mut pairs: Vec<(u32, u32)> = Vec::new();
    for _ in 0..10 {
        sim.simulate(&forward, 100);
        pairs = sim.collision_candidates();
        if pairs.len() > 0 {
            break;
        }
    }
    assert_eq!(pairs, vec![(0, 1)]);
}
