use ising::ising::{IsingModel, Temperature};
use rand::rngs::SmallRng;
use rand::SeedableRng;

/// The Metropolis thresholds of temperature `t`: each Boltzmann factor `p`
/// as the 53-bit fixed-point value `ceil(p · 2^53)`.
fn temperature(t: f64) -> Temperature {
    let threshold = |p: f64| (p * 9007199254740992.0).ceil() as u64;
    Temperature { accept_4: threshold((-4.0 / t).exp()), accept_8: threshold((-8.0 / t).exp()) }
}

fn all_up(l: usize) -> IsingModel {
    IsingModel::new_ordered(l, temperature(2.0))
}

fn all_down(l: usize) -> IsingModel {
    let mut m = IsingModel::new_ordered(l, temperature(2.0));
    m.spins.iter_mut().for_each(|s| *s = -1);
    m
}

fn checkerboard(l: usize) -> IsingModel {
    let mut m = IsingModel::new_ordered(l, temperature(2.0));
    for r in 0..l {
        for c in 0..l {
            if (r + c) % 2 == 1 {
                m.spins[r * l + c] = -1;
            }
        }
    }
    m
}

// ── energy (tested on L = 4 where each bond is counted exactly once) ──

#[test]
fn energy_all_up_l4() {
    // 2 × L² bonds (right + down), all s_i s_j = +1 → E = −2L² = −32
    assert_eq!(all_up(4).energy() as f64, -32.0);
}

#[test]
fn energy_all_down_l4() {
    // same bond structure, all s_i s_j = +1 → E = −32
    assert_eq!(all_down(4).energy() as f64, -32.0);
}

#[test]
fn energy_checkerboard_l4() {
    // all bonds are between opposite spins → E = +32
    assert_eq!(checkerboard(4).energy() as f64, 32.0);
}

// ── ΔE ──────────────────────────────────────────────────────────────────

#[test]
fn delta_energy_all_up_l4() {
    // Flipping any spin costs 4 bonds × 2 = 8
    let m = all_up(4);
    assert_eq!(m.delta_energy(0) as f64, 8.0);
    assert_eq!(m.delta_energy(7) as f64, 8.0);
    assert_eq!(m.delta_energy(15) as f64, 8.0);
}

#[test]
fn delta_energy_checkerboard_l4() {
    // All 4 neighbours are opposite → ΔE = −8
    let m = checkerboard(4);
    assert_eq!(m.delta_energy(0) as f64, -8.0);
    assert_eq!(m.delta_energy(1) as f64, -8.0);
}

#[test]
fn delta_energy_consistent_with_energy() {
    // delta_energy(i) must equal energy_after − energy_before
    let mut m = all_up(4);
    for i in [0usize, 1, 5, 10, 15] {
        let e_before = m.energy() as f64;
        let de = m.delta_energy(i) as f64;
        m.spins[i] = -m.spins[i];
        let e_after = m.energy() as f64;
        m.spins[i] = -m.spins[i]; // restore
        assert!(
            (e_after - e_before - de).abs() < 1e-10,
            "site {i}: delta_energy = {de}, actual ΔE = {}",
            e_after - e_before
        );
    }
}

// ── magnetization ───────────────────────────────────────────────────────

#[test]
fn magnetization_all_up_l4() {
    assert_eq!(all_up(4).magnetization_sum() as f64, 16.0);
}

#[test]
fn magnetization_all_down_l4() {
    assert_eq!(all_down(4).magnetization_sum() as f64, -16.0);
}

#[test]
fn magnetization_all_up_l2() {
    assert_eq!(all_up(2).magnetization_sum() as f64, 4.0);
}

// ── physical limits ─────────────────────────────────────────────────────

#[test]
fn low_temperature_stays_ordered() {
    // At T = 0.5 ≪ T_c ≈ 2.269, the ordered state should not disorder.
    let mut rng = SmallRng::seed_from_u64(42);
    let l = 4;
    let mut m = IsingModel::new_ordered(l, temperature(0.5));
    for _ in 0..10_000 {
        m.sweep(&mut rng);
    }
    let mag = (m.magnetization_sum() as f64).abs() / (l * l) as f64;
    assert!(mag > 0.99, "low-T |m| = {mag:.4}, expected ≈ 1.0");
}

#[test]
fn high_temperature_mean_magnetization_near_zero() {
    // At T = 50 ≫ T_c, time-averaged ⟨m⟩ should be ≈ 0.
    let mut rng = SmallRng::seed_from_u64(123);
    let l = 4;
    let n = (l * l) as f64;
    let mut model = IsingModel::new_random(l, temperature(50.0), &mut rng);
    for _ in 0..2_000 {
        // thermalize
        model.sweep(&mut rng);
    }
    let mut sum_m = 0.0f64;
    let steps = 50_000usize;
    for _ in 0..steps {
        model.sweep(&mut rng);
        sum_m += model.magnetization_sum() as f64 / n;
    }
    let mean_m = sum_m / steps as f64;
    assert!(mean_m.abs() < 0.05, "high-T ⟨m⟩ = {mean_m:.4}, expected ≈ 0.0");
}
