use nbody_core::{Body, Simulation, Simulation3D, FX_ONE};

/// One whole unit in the solver's 64-bit fixed-point scale.
fn fx(x: f64) -> i64 {
    (x * 4294967296.0) as i64
}

#[test]
fn test_empty_system_defined() {
    // zero bodies: bounds computation and tree build return defined results
    let mut sim = Simulation::new(Vec::new(), fx(0.1), fx(1.0), fx(0.001), fx(0.5));
    let bounds = sim.compute_bounds();
    assert_eq!(bounds.min, vec![-FX_ONE, -FX_ONE]);
    assert_eq!(bounds.max, vec![FX_ONE, FX_ONE]);
    let tree = sim.get_tree();
    assert_eq!(tree.get_total_mass(), 0);
    sim.step();
    assert_eq!(sim.bodies().len(), 0);
}

#[test]
fn test_empty_system_defined_3d() {
    let mut sim = Simulation3D::new(Vec::new(), fx(0.1), fx(1.0), fx(0.001), fx(0.5));
    let bounds = sim.compute_bounds();
    assert_eq!(bounds.min, vec![-FX_ONE, -FX_ONE, -FX_ONE]);
    assert_eq!(bounds.max, vec![FX_ONE, FX_ONE, FX_ONE]);
    sim.step();
    assert_eq!(sim.bodies().len(), 0);
}

#[test]
fn test_single_body_drifts() {
    // one body, no partner: zero force, velocity carries it
    let bodies = vec![Body::new(fx(1.0), 0, 0, fx(1.0), fx(-2.0))];
    let mut sim = Simulation::new(bodies, fx(0.5), fx(1.0), fx(0.001), fx(0.5));
    sim.step();
    assert_eq!(sim.bodies()[0].position, vec![fx(0.5), fx(-1.0)]);
    assert_eq!(sim.bodies()[0].velocity, vec![fx(1.0), fx(-2.0)]);
    assert_eq!(sim.bodies()[0].acceleration, vec![0, 0]);
}

#[test]
fn test_coincident_pair_is_stable() {
    // two distinct bodies on one point exert no force on each other
    let bodies = vec![
        Body::new(fx(1.0), fx(0.25), fx(0.25), 0, 0),
        Body::new(fx(2.0), fx(0.25), fx(0.25), 0, 0),
    ];
    let mut sim = Simulation::new(bodies, fx(0.1), fx(1.0), fx(0.001), fx(0.5));
    sim.step();
    assert_eq!(sim.bodies()[0].position, vec![fx(0.25), fx(0.25)]);
    assert_eq!(sim.bodies()[1].position, vec![fx(0.25), fx(0.25)]);
}

#[test]
fn test_body_updates() {
    let mut b = Body::new(fx(2.0), fx(1.0), fx(2.0), fx(0.5), fx(-0.5));
    assert_eq!(b.mass, fx(2.0));
    b.update_position(fx(2.0));
    assert_eq!(b.position, vec![fx(2.0), fx(1.0)]);
    b.acceleration = vec![fx(1.0), fx(1.0)];
    b.update_velocity(fx(0.5));
    assert_eq!(b.velocity, vec![fx(1.0), 0]);
}

#[test]
fn test_body_from_arrays() {
    let b = Body::new_with_arrays(fx(3.0), vec![fx(1.0), fx(2.0), fx(3.0)], vec![0, 0, 0]);
    assert_eq!(b.position.len(), 3);
    assert_eq!(b.acceleration, vec![0, 0, 0]);
    let c = b.duplicate();
    assert_eq!(c.mass, b.mass);
    assert_eq!(c.position, b.position);
}

#[test]
fn test_step_is_deterministic() {
    // two identical systems step to identical states, however the parallel
    // force phase schedules its workers
    let mk = || {
        vec![
            Body::new(fx(1.0), fx(-0.5), fx(0.25), fx(0.1), 0),
            Body::new(fx(2.0), fx(0.5), fx(-0.25), 0, fx(-0.1)),
            Body::new(fx(0.5), fx(0.0), fx(0.75), fx(-0.1), fx(0.1)),
        ]
    };
    let mut s1 = Simulation::new(mk(), fx(0.1), fx(1.0), fx(0.001), fx(0.5));
    let mut s2 = Simulation::new(mk(), fx(0.1), fx(1.0), fx(0.001), fx(0.5));
    for _ in 0..5 {
        s1.step();
        s2.step();
    }
    for (a, b) in s1.bodies().iter().zip(s2.bodies().iter()) {
        assert_eq!(a.position, b.position);
        assert_eq!(a.velocity, b.velocity);
        assert_eq!(a.acceleration, b.acceleration);
    }
}

#[test]
fn test_mirrored_pair_approaches() {
    // the two-body system closes in along its axis, exactly symmetrically
    let bodies = vec![
        Body::new(fx(1.0), fx(-0.5), 0, 0, 0),
        Body::new(fx(1.0), fx(0.5), 0, 0, 0),
    ];
    let mut sim = Simulation::new(bodies, fx(0.1), fx(1.0), fx(0.001), fx(0.5));
    let gap0 = sim.bodies()[1].position[0] - sim.bodies()[0].position[0];
    sim.step();
    let gap1 = sim.bodies()[1].position[0] - sim.bodies()[0].position[0];
    assert!(gap1 < gap0);
    assert!(gap1 >= 0);
    // exact mirror symmetry of the step
    assert_eq!(sim.bodies()[0].position[0], -sim.bodies()[1].position[0]);
    assert_eq!(sim.bodies()[0].position[1], 0);
    assert_eq!(sim.bodies()[1].position[1], 0);
}
