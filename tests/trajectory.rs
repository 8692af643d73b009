use ode_solver::integrate;

/// One classical Runge-Kutta step of size `dt` for `dy/dt = f(t, y)`.
fn rk4_step<const N: usize>(f: &dyn Fn(f64, &[f64; N]) -> [f64; N], dt: f64, t: f64, y: &[f64; N]) -> [f64; N] {
    let offset = |base: &[f64; N], k: &[f64; N], h: f64| {
        let mut out = *base;
        for i in 0..N {
            out[i] = base[i] + k[i] * h;
        }
        out
    };
    let k1 = f(t, y);
    let k2 = f(t + dt / 2.0, &offset(y, &k1, dt / 2.0));
    let k3 = f(t + dt / 2.0, &offset(y, &k2, dt / 2.0));
    let k4 = f(t + dt, &offset(y, &k3, dt));
    let mut next = *y;
    for i in 0..N {
        next[i] = y[i] + (k1[i] + k2[i] * 2.0 + k3[i] * 2.0 + k4[i]) * (dt / 6.0);
    }
    next
}

#[test]
fn test_exponential_decay() {
    let dt = 0.01;
    let f = |_t: f64, y: &[f64; 1]| [-y[0]];
    let result = integrate(&|t, y: &[f64; 1]| rk4_step(&f, dt, t, y), &|t| t + dt, 0.0, [1.0], 100);
    let y_at_1 = result[100];
    let expected = (-1.0_f64).exp();
    assert!((y_at_1 - expected).abs() < 1e-6, "Expected {}, got {}", expected, y_at_1);
}

#[test]
fn test_simple_harmonic_oscillator() {
    let dt = 0.01;
    let f = |_t: f64, y: &[f64; 2]| [y[1], -y[0]];
    let result = integrate(&|t, y: &[f64; 2]| rk4_step(&f, dt, t, y), &|t| t + dt, 0.0, [1.0, 0.0], 628);
    let x_final = result[628 * 2];
    let v_final = result[628 * 2 + 1];
    assert!((x_final - 1.0).abs() < 0.01, "Expected x ≈ 1, got {}", x_final);
    assert!(v_final.abs() < 0.01, "Expected v ≈ 0, got {}", v_final);
}

#[test]
fn trajectory_length_is_states_times_dimension() {
    let step = |_t: f64, y: &[f64; 3]| [y[0] + 1.0, y[1] * 2.0, -y[2]];
    let tick = |t: f64| t + 0.5;
    assert_eq!(integrate(&step, &tick, 0.0, [1.0, 1.0, 1.0], 100).len(), 303);
    assert_eq!(integrate(&step, &tick, 0.0, [1.0, 1.0, 1.0], 7).len(), 24);
    let planar = |_t: f64, y: &[f64; 2]| [y[1], y[0]];
    assert_eq!(integrate(&planar, &tick, 0.0, [2.0, 0.0], 100).len(), 202);
}

#[test]
fn trajectory_starts_with_initial_state_exactly() {
    let step = |_t: f64, y: &[f64; 3]| [y[0] * 0.1 + 0.3, y[1] - 1e-17, y[2] / 3.0];
    let y0 = [0.1, 1.0 / 3.0, -2.5e-300];
    let result = integrate(&step, &|t| t + 0.01, 0.0, y0, 50);
    assert_eq!(result[0].to_bits(), y0[0].to_bits());
    assert_eq!(result[1].to_bits(), y0[1].to_bits());
    assert_eq!(result[2].to_bits(), y0[2].to_bits());
}

#[test]
fn zero_steps_gives_initial_state_alone() {
    let step = |_t: f64, y: &[f64; 2]| [y[0] + 1.0, y[1] + 1.0];
    let result = integrate(&step, &|t| t + 1.0, 0.0, [4.0, -4.0], 0);
    assert_eq!(result, vec![4.0, -4.0]);
}

#[test]
fn repeated_integration_is_bit_identical() {
    let dt = 0.01;
    let f = |_t: f64, y: &[f64; 3]| [10.0 * (y[1] - y[0]), y[0] * (28.0 - y[2]) - y[1], y[0] * y[1] - 8.0 / 3.0 * y[2]];
    let run = || integrate(&|t, y: &[f64; 3]| rk4_step(&f, dt, t, y), &|t| t + dt, 0.0, [1.0, 1.0, 1.0], 500);
    let first: Vec<u64> = run().iter().map(|v| v.to_bits()).collect();
    let second: Vec<u64> = run().iter().map(|v| v.to_bits()).collect();
    assert_eq!(first, second);
}

#[test]
fn states_follow_in_row_major_order() {
    let step = |_t: u64, y: &[u64; 2]| [y[0] + 1, y[1] + 10];
    let result = integrate(&step, &|t| t, 0u64, [0u64, 0u64], 3);
    assert_eq!(result, vec![0, 0, 1, 10, 2, 20, 3, 30]);
}

#[test]
fn clock_starts_at_given_time_and_advances_each_step() {
    // The state records the time at which each step began.
    let step = |t: u64, _y: &[u64; 1]| [t];
    let result = integrate(&step, &|t| t + 5, 100u64, [0u64], 4);
    assert_eq!(result, vec![0, 100, 105, 110, 115]);
}

#[test]
fn clock_accumulates_without_correction() {
    let step = |t: f64, _y: &[f64; 1]| [t];
    let result = integrate(&step, &|t| t + 0.1, 0.0, [0.0], 10);
    let mut t = 0.0_f64;
    for k in 1..=10 {
        assert_eq!(result[k].to_bits(), t.to_bits());
        t += 0.1;
    }
}
