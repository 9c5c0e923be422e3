use nbody_core::{Body, Simulation, Simulation3D};

/// One whole unit in the solver's 64-bit fixed-point scale.
fn fx(x: f64) -> i64 {
    (x * 4294967296.0) as i64
}

#[test]
fn test_simulation_creation() {
    let bodies = vec![
        Body::new(fx(1.0), fx(0.0), fx(0.0), fx(0.0), fx(0.0)),
        Body::new(fx(1.0), fx(1.0), fx(0.0), fx(0.0), fx(0.0)),
    ];
    let sim = Simulation::new(bodies, fx(0.1), fx(1.0), fx(0.001), fx(0.5));
    assert_eq!(sim.bodies().len(), 2);
}

#[test]
fn test_bounds_growth() {
    // Create two bodies moving outward
    let bodies = vec![
        Body::new(fx(1.0), fx(-1.0), fx(-1.0), fx(-1.0), fx(-1.0)), // Moving left and down
        Body::new(fx(1.0), fx(1.0), fx(1.0), fx(1.0), fx(1.0)),     // Moving right and up
    ];
    let mut sim = Simulation::new(bodies, fx(0.1), fx(0.0), fx(0.001), fx(0.5)); // g=0: no attraction

    let initial_bounds = sim.get_tree().get_bounds().duplicate();

    for _ in 0..10 {
        sim.step();
    }

    let binding = sim.get_tree();
    let new_bounds = binding.get_bounds();

    assert!(new_bounds.min[0] < initial_bounds.min[0]);
    assert!(new_bounds.min[1] < initial_bounds.min[1]);
    assert!(new_bounds.max[0] > initial_bounds.max[0]);
    assert!(new_bounds.max[1] > initial_bounds.max[1]);
}

#[test]
fn test_simulation_step() {
    // Create two bodies that should attract each other
    let bodies = vec![
        Body::new(fx(1.0), fx(-0.5), fx(0.0), fx(0.0), fx(0.0)),
        Body::new(fx(1.0), fx(0.5), fx(0.0), fx(0.0), fx(0.0)),
    ];

    let mut sim = Simulation::new(bodies, fx(0.1), fx(1.0), fx(0.001), fx(0.5));

    let initial_x1 = sim.bodies()[0].position[0];
    let initial_x2 = sim.bodies()[1].position[0];

    sim.step();

    // Bodies should move towards each other
    assert!(sim.bodies()[0].position[0] > initial_x1);
    assert!(sim.bodies()[1].position[0] < initial_x2);
}

#[test]
fn simulation_test_simulation_creation() {
    let bodies = vec![
        Body::new(fx(1.0), fx(0.0), fx(0.0), fx(0.0), fx(0.0)),
        Body::new(fx(1.0), fx(1.0), fx(0.0), fx(0.0), fx(0.0)),
    ];
    let sim = Simulation::new(bodies, fx(0.1), fx(1.0), fx(0.001), fx(0.5));
    assert_eq!(sim.bodies().len(), 2);
}

#[test]
fn simulation_test_bounds_growth() {
    let bodies = vec![
        Body::new(fx(1.0), fx(-1.0), fx(-1.0), fx(-1.0), fx(-1.0)),
        Body::new(fx(1.0), fx(1.0), fx(1.0), fx(1.0), fx(1.0)),
    ];
    let mut sim = Simulation::new(bodies, fx(0.1), fx(0.0), fx(0.001), fx(0.5));

    let initial_bounds = sim.get_tree().get_bounds().duplicate();

    for _ in 0..10 {
        sim.step();
    }

    let binding = sim.get_tree();
    let new_bounds = binding.get_bounds();

    assert!(new_bounds.min[0] < initial_bounds.min[0]);
    assert!(new_bounds.min[1] < initial_bounds.min[1]);
    assert!(new_bounds.max[0] > initial_bounds.max[0]);
    assert!(new_bounds.max[1] > initial_bounds.max[1]);
}

#[test]
fn simulation_test_simulation_step() {
    let bodies = vec![
        Body::new(fx(1.0), fx(-0.5), fx(0.0), fx(0.0), fx(0.0)),
        Body::new(fx(1.0), fx(0.5), fx(0.0), fx(0.0), fx(0.0)),
    ];

    let mut sim = Simulation::new(bodies, fx(0.1), fx(1.0), fx(0.001), fx(0.5));

    let initial_x1 = sim.bodies()[0].position[0];
    let initial_x2 = sim.bodies()[1].position[0];

    sim.step();

    assert!(sim.bodies()[0].position[0] > initial_x1);
    assert!(sim.bodies()[1].position[0] < initial_x2);
}

#[test]
fn test_simulation_3d_creation() {
    let bodies = vec![
        Body::new_3d(fx(1.0), fx(0.0), fx(0.0), fx(0.0), fx(0.0), fx(0.0), fx(0.0)),
        Body::new_3d(fx(1.0), fx(1.0), fx(0.0), fx(0.0), fx(0.0), fx(0.0), fx(0.0)),
    ];
    let sim = Simulation3D::new(bodies, fx(0.1), fx(1.0), fx(0.001), fx(0.5));
    assert_eq!(sim.bodies().len(), 2);
}

#[test]
fn test_3d_simulation_step() {
    // Create two bodies that should attract each other in 3D
    let bodies = vec![
        Body::new_3d(fx(1.0), fx(-0.5), fx(0.0), fx(0.0), fx(0.0), fx(0.0), fx(0.0)),
        Body::new_3d(fx(1.0), fx(0.5), fx(0.0), fx(0.0), fx(0.0), fx(0.0), fx(0.0)),
    ];

    let mut sim = Simulation3D::new(bodies, fx(0.1), fx(1.0), fx(0.001), fx(0.5));

    let initial_x1 = sim.bodies()[0].position[0];
    let initial_x2 = sim.bodies()[1].position[0];

    sim.step();

    assert!(sim.bodies()[0].position[0] > initial_x1);
    assert!(sim.bodies()[1].position[0] < initial_x2);
}

#[test]
fn test_3d_bounds_computation() {
    // Create bodies in 3D space
    let bodies = vec![
        Body::new_3d(fx(1.0), fx(-1.0), fx(-1.0), fx(-1.0), fx(0.0), fx(0.0), fx(0.0)),
        Body::new_3d(fx(1.0), fx(1.0), fx(1.0), fx(1.0), fx(0.0), fx(0.0), fx(0.0)),
    ];

    let sim = Simulation3D::new(bodies, fx(0.1), fx(1.0), fx(0.001), fx(0.5));
    let bounds = sim.compute_bounds();

    assert_eq!(bounds.min, vec![fx(-1.0), fx(-1.0), fx(-1.0)]);
    assert_eq!(bounds.max, vec![fx(1.0), fx(1.0), fx(1.0)]);
}
