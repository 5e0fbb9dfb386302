use ising::ising::{spin_from_draw, IsingModel, Temperature, ALWAYS};
use ising::schedule::sweep_counts;
use rand::rngs::SmallRng;
use rand::{Rng, SeedableRng};

fn temperature(t: f64) -> Temperature {
    let threshold = |p: f64| (p * 9007199254740992.0).ceil() as u64;
    Temperature { accept_4: threshold((-4.0 / t).exp()), accept_8: threshold((-8.0 / t).exp()) }
}

fn random_model(l: usize, seed: u64) -> IsingModel {
    let mut rng = SmallRng::seed_from_u64(seed);
    IsingModel::new_random(l, temperature(2.0), &mut rng)
}

fn is_valid(m: &IsingModel) -> bool {
    m.spins.len() == m.l * m.l && m.spins.iter().all(|&s| s == 1 || s == -1)
}

#[test]
fn sweep_counts_by_size() {
    assert_eq!(sweep_counts(0), (1_000, 10_000));
    assert_eq!(sweep_counts(8), (1_000, 10_000));
    assert_eq!(sweep_counts(16), (1_000, 10_000));
    assert_eq!(sweep_counts(17), (3_000, 30_000));
    assert_eq!(sweep_counts(32), (3_000, 30_000));
    assert_eq!(sweep_counts(33), (8_000, 80_000));
    assert_eq!(sweep_counts(64), (8_000, 80_000));
}

#[test]
fn coin_spin_splits_at_half_range() {
    assert_eq!(spin_from_draw(0), 1);
    assert_eq!(spin_from_draw(0x7fff_ffff_ffff_ffff), 1);
    assert_eq!(spin_from_draw(0x8000_0000_0000_0000), -1);
    assert_eq!(spin_from_draw(u64::MAX), -1);
}

#[test]
fn coin_spin_matches_rand_gen_bool() {
    let mut a = SmallRng::seed_from_u64(7);
    let mut b = SmallRng::seed_from_u64(7);
    for _ in 0..1000 {
        let expected = if a.gen_bool(0.5) { 1 } else { -1 };
        assert_eq!(spin_from_draw(b.gen::<u64>()), expected);
    }
}

#[test]
fn uniform_draw_threshold_matches_float_comparison() {
    // `gen::<f64>() < p` decides exactly as `(bits >> 11) < ceil(p · 2^53)`.
    for &t in &[0.5f64, 1.0, 2.269, 3.0, 50.0] {
        for &p in &[(-4.0 / t).exp(), (-8.0 / t).exp()] {
            let threshold = (p * 9007199254740992.0).ceil() as u64;
            let mut a = SmallRng::seed_from_u64(11);
            let mut b = SmallRng::seed_from_u64(11);
            for _ in 0..2000 {
                let float_accepts = a.gen::<f64>() < p;
                let bits_accept = (b.gen::<u64>() >> 11) < threshold;
                assert_eq!(float_accepts, bits_accept);
            }
        }
    }
}

#[test]
fn new_ordered_is_all_up() {
    for l in 0..6 {
        let m = IsingModel::new_ordered(l, temperature(1.0));
        assert_eq!(m.l, l);
        assert_eq!(m.spins, vec![1i8; l * l]);
        assert_eq!(m.exp_table[0], ALWAYS);
        assert_eq!(m.exp_table[1], ALWAYS);
        assert_eq!(m.exp_table[2], ALWAYS);
    }
}

#[test]
fn new_random_gives_valid_lattice() {
    for l in 0..7 {
        let m = random_model(l, 3 + l as u64);
        assert!(is_valid(&m));
    }
    let m = random_model(8, 5);
    assert!(m.spins.contains(&1) && m.spins.contains(&-1));
}

#[test]
fn set_temperature_keeps_spins() {
    let mut m = random_model(5, 9);
    let before = m.spins.clone();
    let t = temperature(0.7);
    m.set_temperature(t);
    assert_eq!(m.spins, before);
    assert_eq!(m.exp_table, [ALWAYS, ALWAYS, ALWAYS, t.accept_4, t.accept_8]);
}

#[test]
fn ordered_energy_is_minus_two_l_squared() {
    for l in 1..8usize {
        let m = IsingModel::new_ordered(l, temperature(2.0));
        assert_eq!(m.energy(), -2 * (l * l) as i64);
        assert_eq!(m.magnetization_sum(), (l * l) as i64);
        for i in 0..l * l {
            assert_eq!(m.delta_energy(i), 8);
        }
    }
}

#[test]
fn even_checkerboard_energy_is_plus_two_l_squared() {
    for l in [2usize, 4, 6] {
        let mut m = IsingModel::new_ordered(l, temperature(2.0));
        for r in 0..l {
            for c in 0..l {
                if (r + c) % 2 == 1 {
                    m.spins[r * l + c] = -1;
                }
            }
        }
        assert_eq!(m.energy(), 2 * (l * l) as i64);
        for i in 0..l * l {
            assert_eq!(m.delta_energy(i), -8);
        }
    }
}

#[test]
fn delta_energy_is_energy_change_for_every_site() {
    for l in 2..7usize {
        let mut m = random_model(l, 100 + l as u64);
        for i in 0..l * l {
            let before = m.energy();
            let de = m.delta_energy(i);
            assert!([-8, -4, 0, 4, 8].contains(&de));
            m.spins[i] = -m.spins[i];
            assert_eq!(m.energy() - before, de);
            m.spins[i] = -m.spins[i];
        }
    }
}

#[test]
fn delta_energy_law_fails_on_one_site() {
    // With L = 1 every neighbour is the site itself: ΔE is reported as 8,
    // but the energy −2 does not change under the flip.
    let mut m = IsingModel::new_ordered(1, temperature(2.0));
    assert_eq!(m.delta_energy(0), 8);
    let before = m.energy();
    m.spins[0] = -1;
    assert_eq!(m.energy(), before);
    assert_eq!(before, -2);
}

#[test]
fn reversing_all_spins_keeps_energy_and_negates_magnetization() {
    for l in 1..7usize {
        let mut m = random_model(l, 200 + l as u64);
        let e = m.energy();
        let mag = m.magnetization_sum();
        m.spins.iter_mut().for_each(|s| *s = -*s);
        assert_eq!(m.energy(), e);
        assert_eq!(m.magnetization_sum(), -mag);
    }
}

#[test]
fn metropolis_update_accepts_downhill_and_uses_threshold_uphill() {
    // All up: every flip raises the energy by 8, table entry 4.
    let t = Temperature { accept_4: 0, accept_8: 1000 };
    let mut m = IsingModel::new_ordered(3, t);
    // (draw >> 11) = 999 < 1000: accepted.
    m.metropolis_update(4, 999 << 11);
    assert_eq!(m.spins[4], -1);
    // Now the flipped site lowers the energy when flipped back: always accepted.
    m.metropolis_update(4, u64::MAX);
    assert_eq!(m.spins[4], 1);
    // (draw >> 11) = 1000 is not below 1000: rejected.
    m.metropolis_update(0, 1000 << 11);
    assert_eq!(m.spins[0], 1);
    // Threshold 0 never accepts.
    let mut z = IsingModel::new_ordered(3, Temperature { accept_4: 0, accept_8: 0 });
    z.metropolis_update(0, 0);
    assert_eq!(z.spins[0], 1);
    // Threshold ALWAYS always accepts.
    let mut a = IsingModel::new_ordered(3, Temperature { accept_4: ALWAYS, accept_8: ALWAYS });
    a.metropolis_update(0, u64::MAX);
    assert_eq!(a.spins[0], -1);
}

#[test]
fn sweep_keeps_lattice_valid_and_moves_at_high_temperature() {
    let mut rng = SmallRng::seed_from_u64(5);
    let mut m = IsingModel::new_ordered(6, temperature(50.0));
    m.sweep(&mut rng);
    assert!(is_valid(&m));
    assert!(m.spins.contains(&-1));
    let table = m.exp_table;
    for _ in 0..50 {
        m.sweep(&mut rng);
        assert!(is_valid(&m));
        assert_eq!(m.exp_table, table);
        assert_eq!(m.l, 6);
    }
}

#[test]
fn zero_temperature_sweep_never_raises_energy() {
    // With both thresholds 0 no uphill flip is accepted.
    let mut rng = SmallRng::seed_from_u64(77);
    let mut m = random_model(6, 78);
    m.set_temperature(Temperature { accept_4: 0, accept_8: 0 });
    let mut e = m.energy();
    for _ in 0..100 {
        m.sweep(&mut rng);
        let e2 = m.energy();
        assert!(e2 <= e);
        e = e2;
    }
}

#[test]
fn empty_lattice_sweep_does_nothing() {
    let mut rng = SmallRng::seed_from_u64(1);
    let mut m = IsingModel::new_ordered(0, temperature(1.0));
    m.sweep(&mut rng);
    assert!(m.spins.is_empty());
    assert_eq!(m.energy(), 0);
    assert_eq!(m.magnetization_sum(), 0);
}

#[test]
fn energy_is_invariant_under_cyclic_translation() {
    for l in 1..7usize {
        let m = random_model(l, 300 + l as u64);
        let e = m.energy();
        for dr in 0..(2 * l) {
            for dc in 0..(2 * l) {
                let mut t = IsingModel::new_ordered(l, temperature(2.0));
                for r in 0..l {
                    for c in 0..l {
                        t.spins[r * l + c] = m.spins[((r + dr) % l) * l + (c + dc) % l];
                    }
                }
                assert_eq!(t.energy(), e);
            }
        }
    }
}

#[test]
fn energy_range_parity_and_ground_states() {
    for l in 1..7usize {
        let n = (l * l) as i64;
        for seed in 0..20u64 {
            let m = random_model(l, 400 + seed);
            let e = m.energy();
            assert!(-2 * n <= e && e <= 2 * n);
            assert_eq!((e + 2 * n) % 4, 0);
            let uniform = m.spins.iter().all(|&s| s == m.spins[0]);
            assert_eq!(e == -2 * n, uniform);
        }
        let mut down = IsingModel::new_ordered(l, temperature(2.0));
        down.spins.iter_mut().for_each(|s| *s = -1);
        assert_eq!(down.energy(), -2 * n);
        if l >= 2 {
            let mut one = IsingModel::new_ordered(l, temperature(2.0));
            one.spins[0] = -1;
            assert!(one.energy() > -2 * n);
        }
    }
}

#[test]
fn sweep_commutes_with_reversing_every_spin() {
    for l in 1..6usize {
        let m1 = random_model(l, 500 + l as u64);
        let mut a = IsingModel::new_ordered(l, temperature(2.3));
        a.spins = m1.spins.clone();
        let mut b = IsingModel::new_ordered(l, temperature(2.3));
        b.spins = m1.spins.iter().map(|&s| -s).collect();
        let mut rng_a = SmallRng::seed_from_u64(9);
        let mut rng_b = SmallRng::seed_from_u64(9);
        for _ in 0..30 {
            a.sweep(&mut rng_a);
            b.sweep(&mut rng_b);
            let reversed: Vec<i8> = a.spins.iter().map(|&s| -s).collect();
            assert_eq!(b.spins, reversed);
        }
        assert_eq!(rng_a.gen::<u64>(), rng_b.gen::<u64>());
    }
}

#[test]
fn set_temperature_makes_the_model_as_if_built_at_that_temperature() {
    let (t1, t2) = (temperature(1.0), temperature(3.0));
    let mut m1 = IsingModel::new_ordered(5, t1);
    m1.set_temperature(t2);
    let table = m1.exp_table;
    m1.set_temperature(t2);
    assert_eq!(m1.exp_table, table);
    let mut m2 = IsingModel::new_ordered(5, t2);
    assert_eq!(m1.exp_table, m2.exp_table);
    let mut rng1 = SmallRng::seed_from_u64(21);
    let mut rng2 = SmallRng::seed_from_u64(21);
    for _ in 0..40 {
        m1.sweep(&mut rng1);
        m2.sweep(&mut rng2);
        assert_eq!(m1.spins, m2.spins);
    }
}

#[test]
fn delta_energy_on_any_i8_spins() {
    // `delta_energy` only needs an l × l lattice, like the original.
    let mut m = IsingModel::new_ordered(3, temperature(2.0));
    m.spins[4] = 100;
    m.spins[1] = -128;
    // neighbours of site 4 (row 1, col 1): 1, 7, 3, 5 → −128 + 1 + 1 + 1 = −125
    assert_eq!(m.delta_energy(4), 2 * 100 * -125);
}
