use rand::rngs::SmallRng;
use vstd::prelude::*;

use crate::lattice::{
    all_up, bond_energy, delta_energy, energy, flip, flip_all, lattice_fits, lattice_ok,
    lemma_index_coords, lemma_site_coords, lemma_spin_value, magnetization, neighbour_sum, next, prev, row_bonds,
    row_energies, site, spin_values, spins_valid,
};
use crate::random::{random_bits, random_site};
use crate::sums::{lemma_sum_step, sum};

verus! {

/// The acceptance threshold that stands for probability one: a threshold `a`
/// stands for the probability `a / 2^53`, the resolution of a uniform draw.
pub const ALWAYS: u64 = 0x20_0000_0000_0000;

/// A temperature `T`, given by the two Metropolis acceptance probabilities it
/// fixes for an energy increase: `exp(−4/T)` for `ΔE = 4` and `exp(−8/T)` for
/// `ΔE = 8`. Each is a 53-bit fixed-point threshold: `a` stands for `a / 2^53`,
/// and a threshold of at least `ALWAYS` means that the flip is always accepted.
#[derive(Clone, Copy, Debug)]
pub struct Temperature {
    pub accept_4: u64,
    pub accept_8: u64,
}

/// 2D ferromagnetic Ising model on an `L × L` square lattice
/// with periodic boundary conditions, `J = k_B = 1`.
pub struct IsingModel {
    /// Linear size `L`.
    pub l: usize,
    /// Spins in row-major order, each `+1` or `−1`.
    pub spins: Vec<i8>,
    /// Metropolis acceptance thresholds indexed by `k = (s_i · Σ_nn + 4) / 2`,
    /// `s_i · Σ_nn ∈ {−4, −2, 0, 2, 4}`: `min(1, exp(−ΔE / T))` with
    /// `ΔE = 2 s_i Σ_nn`, as 53-bit fixed point. Set from a `Temperature`.
    pub exp_table: [u64; 5],
}

/// The acceptance table a temperature gives: flips that do not raise the
/// energy are always accepted.
pub open spec fn acceptance_of(t: Temperature) -> Seq<u64> {
    seq![ALWAYS, ALWAYS, ALWAYS, t.accept_4, t.accept_8]
}

/// `(s_i · Σ_nn + 4) / 2`: the index into the acceptance table of the flip of
/// the spin at flat index `i`, which raises the energy by `4 · index − 8`.
pub open spec fn flip_class(l: int, s: Seq<i8>, i: int) -> int {
    ((s[i] as int) * neighbour_sum(l, s, i / l, i % l) + 4) / 2
}

/// The Metropolis test with threshold `table[k]` and the 64 random bits `draw`:
/// accepted outright when the threshold stands for probability one, and
/// otherwise when the uniform 53-bit value `draw >> 11` is below the threshold.
pub open spec fn accepts(table: Seq<u64>, k: int, draw: u64) -> bool {
    table[k] >= ALWAYS || (draw >> 11u64) < table[k]
}

/// The lattice after one Metropolis attempt at site `i` with random bits `draw`.
pub open spec fn metropolis_update(table: Seq<u64>, l: int, s: Seq<i8>, i: int, draw: u64) -> Seq<
    i8,
> {
    if accepts(table, flip_class(l, s, i), draw) {
        flip(s, i)
    } else {
        s
    }
}

/// `s2` is the outcome of one Metropolis attempt on `s`, at some site and with
/// some random bits.
pub open spec fn metropolis_step(table: Seq<u64>, l: int, s: Seq<i8>, s2: Seq<i8>) -> bool {
    exists|i: int, draw: u64|
        0 <= i < l * l && s2 == #[trigger] metropolis_update(table, l, s, i, draw)
}

/// The states `states` are a chain of Metropolis attempts: each follows from
/// the one before by one attempt.
pub open spec fn metropolis_chain(table: Seq<u64>, l: int, states: Seq<Seq<i8>>) -> bool {
    forall|j: int|
        0 <= j < states.len() - 1 ==> metropolis_step(table, l, #[trigger] states[j], states[j + 1])
}

/// `s2` is reached from `s` by `k` Metropolis attempts.
pub open spec fn metropolis_path(table: Seq<u64>, l: int, s: Seq<i8>, s2: Seq<i8>, k: nat) -> bool {
    exists|states: Seq<Seq<i8>>|
        {
            &&& #[trigger] states.len() == k + 1
            &&& states[0] == s
            &&& states[k as int] == s2
            &&& metropolis_chain(table, l, states)
        }
}

/// Zero attempts reach only the start.
pub proof fn lemma_path_start(table: Seq<u64>, l: int, s: Seq<i8>)
    ensures
        metropolis_path(table, l, s, s, 0),
{
    let states = seq![s];
    assert(states.len() == 0 + 1);
}

/// A path of `k` attempts followed by one more attempt is a path of `k + 1`.
pub proof fn lemma_path_extend(
    table: Seq<u64>,
    l: int,
    s: Seq<i8>,
    mid: Seq<i8>,
    s2: Seq<i8>,
    k: nat,
)
    requires
        metropolis_path(table, l, s, mid, k),
        metropolis_step(table, l, mid, s2),
    ensures
        metropolis_path(table, l, s, s2, k + 1),
{
    let states = choose|states: Seq<Seq<i8>>|
        {
            &&& #[trigger] states.len() == k + 1
            &&& states[0] == s
            &&& states[k as int] == mid
            &&& metropolis_chain(table, l, states)
        };
    let longer = states.push(s2);
    assert forall|j: int| 0 <= j < longer.len() - 1 implies metropolis_step(
        table,
        l,
        #[trigger] longer[j],
        longer[j + 1],
    ) by {
        if j < k {
            assert(longer[j] == states[j]);
            assert(longer[j + 1] == states[j + 1]);
        } else {
            assert(longer[j] == mid);
            assert(longer[j + 1] == s2);
        }
    }
    assert(longer.len() == (k + 1) + 1);
}

/// A Metropolis attempt never raises the energy when both uphill thresholds
/// are zero (the `T → 0` limit, where `exp(−ΔE/T)` vanishes), and it keeps the
/// lattice valid.
pub proof fn lemma_zero_temperature_step(table: Seq<u64>, l: int, s: Seq<i8>, s2: Seq<i8>)
    requires
        lattice_ok(l, s),
        table.len() == 5,
        table[3] == 0,
        table[4] == 0,
        metropolis_step(table, l, s, s2),
    ensures
        lattice_ok(l, s2),
        energy(l, s2) <= energy(l, s),
{
    let (i, draw) = choose|i: int, draw: u64|
        0 <= i < l * l && s2 == #[trigger] metropolis_update(table, l, s, i, draw);
    crate::lattice::lemma_delta_energy_values(l, s, i);
    if accepts(table, flip_class(l, s, i), draw) {
        crate::lattice::lemma_flip_valid(l, s, i);
        if l == 1 {
            // A single site has energy −2 whatever its spin.
            crate::lattice::lemma_single_site_energy(s);
            crate::lattice::lemma_single_site_energy(s2);
        } else {
            assert(2 <= l) by (nonlinear_arith)
                requires
                    0 <= l,
                    l != 1,
                    0 <= i < l * l,
            ;
            assert(flip_class(l, s, i) <= 2);
            crate::lattice::lemma_flip_energy_at(l, s, i);
        }
    }
}

/// Along any path of Metropolis attempts with both uphill thresholds zero the
/// energy never rises: a zero-temperature sweep only descends.
pub proof fn lemma_zero_temperature_path(
    table: Seq<u64>,
    l: int,
    s: Seq<i8>,
    s2: Seq<i8>,
    k: nat,
)
    requires
        lattice_ok(l, s),
        table.len() == 5,
        table[3] == 0,
        table[4] == 0,
        metropolis_path(table, l, s, s2, k),
    ensures
        lattice_ok(l, s2),
        energy(l, s2) <= energy(l, s),
{
    let states = choose|states: Seq<Seq<i8>>|
        {
            &&& #[trigger] states.len() == k + 1
            &&& states[0] == s
            &&& states[k as int] == s2
            &&& metropolis_chain(table, l, states)
        };
    lemma_zero_temperature_chain(table, l, states, k as int);
}

/// Every state of a zero-temperature chain is valid and no higher in energy
/// than the first.
proof fn lemma_zero_temperature_chain(table: Seq<u64>, l: int, states: Seq<Seq<i8>>, j: int)
    requires
        0 <= j < states.len(),
        lattice_ok(l, states[0]),
        table.len() == 5,
        table[3] == 0,
        table[4] == 0,
        metropolis_chain(table, l, states),
    ensures
        lattice_ok(l, states[j]),
        energy(l, states[j]) <= energy(l, states[0]),
    decreases j,
{
    if j > 0 {
        lemma_zero_temperature_chain(table, l, states, j - 1);
        assert(metropolis_step(table, l, states[j - 1], states[j]));
        lemma_zero_temperature_step(table, l, states[j - 1], states[j]);
    }
}

/// Every state of a chain of Metropolis attempts from a valid lattice is valid.
pub proof fn lemma_chain_valid(table: Seq<u64>, l: int, states: Seq<Seq<i8>>, j: int)
    requires
        0 <= j < states.len(),
        lattice_ok(l, states[0]),
        metropolis_chain(table, l, states),
    ensures
        lattice_ok(l, states[j]),
    decreases j,
{
    if j > 0 {
        lemma_chain_valid(table, l, states, j - 1);
        assert(metropolis_step(table, l, states[j - 1], states[j]));
        let (i, draw) = choose|i: int, draw: u64|
            0 <= i < l * l && states[j] == #[trigger] metropolis_update(
                table,
                l,
                states[j - 1],
                i,
                draw,
            );
        crate::lattice::lemma_flip_valid(l, states[j - 1], i);
    }
}

/// A Metropolis attempt at the same site with the same random bits on the
/// reversed lattice gives the reversed result: `s_i · Σ_nn`, and so the
/// acceptance test, is unchanged when every spin is reversed.
pub proof fn lemma_update_flip_all(table: Seq<u64>, l: int, s: Seq<i8>, i: int, draw: u64)
    requires
        lattice_ok(l, s),
        0 <= i < l * l,
    ensures
        metropolis_update(table, l, flip_all(s), i, draw) == flip_all(
            metropolis_update(table, l, s, i, draw),
        ),
{
    let t = flip_all(s);
    lemma_index_coords(l as int, i);
    let r = i / l;
    let c = i % l;
    assert(0 <= next(l, r) < l && 0 <= prev(l, r) < l && 0 <= next(l, c) < l && 0 <= prev(l, c)
        < l);
    crate::lattice::lemma_spin_value(l, s, prev(l, r), c);
    crate::lattice::lemma_spin_value(l, s, next(l, r), c);
    crate::lattice::lemma_spin_value(l, s, r, prev(l, c));
    crate::lattice::lemma_spin_value(l, s, r, next(l, c));
    assert(s[i] == 1 || s[i] == -1);
    let ns = neighbour_sum(l, s, r, c);
    assert(neighbour_sum(l, t, r, c) == -ns);
    let x = s[i] as int;
    assert(t[i] as int == -x);
    assert((-x) * (-ns) == x * ns) by (nonlinear_arith);
    assert(flip_class(l, t, i) == flip_class(l, s, i));
    assert(flip(t, i) =~= flip_all(flip(s, i)));
}

/// The outcomes of `k` Metropolis attempts are symmetric under reversing
/// every spin: if `s2` can follow from `s`, the reversal of `s2` can follow
/// from the reversal of `s`, by the same sites and random bits.
pub proof fn lemma_path_flip_all(table: Seq<u64>, l: int, s: Seq<i8>, s2: Seq<i8>, k: nat)
    requires
        lattice_ok(l, s),
        metropolis_path(table, l, s, s2, k),
    ensures
        metropolis_path(table, l, flip_all(s), flip_all(s2), k),
{
    let states = choose|states: Seq<Seq<i8>>|
        {
            &&& #[trigger] states.len() == k + 1
            &&& states[0] == s
            &&& states[k as int] == s2
            &&& metropolis_chain(table, l, states)
        };
    let reversed = states.map_values(|x: Seq<i8>| flip_all(x));
    assert forall|j: int| 0 <= j < reversed.len() - 1 implies metropolis_step(
        table,
        l,
        #[trigger] reversed[j],
        reversed[j + 1],
    ) by {
        lemma_chain_valid(table, l, states, j);
        assert(metropolis_step(table, l, states[j], states[j + 1]));
        let (i, draw) = choose|i: int, draw: u64|
            0 <= i < l * l && states[j + 1] == #[trigger] metropolis_update(
                table,
                l,
                states[j],
                i,
                draw,
            );
        lemma_update_flip_all(table, l, states[j], i, draw);
        assert(reversed[j + 1] == metropolis_update(table, l, reversed[j], i, draw));
    }
    assert(reversed.len() == k + 1);
}

/// The table index of a flip is fixed by the energy change it causes:
/// `ΔE = 4k − 8`, so a flip is always tested against the threshold of its own
/// `ΔE ∈ {−8, −4, 0, 4, 8}`.
pub proof fn lemma_flip_class_energy(l: int, s: Seq<i8>, i: int)
    requires
        lattice_ok(l, s),
        0 <= i < l * l,
    ensures
        0 <= flip_class(l, s, i) <= 4,
        4 * flip_class(l, s, i) - 8 == delta_energy(l, s, i),
{
    crate::lattice::lemma_delta_energy_values(l, s, i);
}

/// A threshold `a` below `ALWAYS` accepts exactly the `a · 2^11` smallest of
/// the `2^64` possible random bit patterns, that is with probability `a / 2^53`;
/// a threshold of at least `ALWAYS` accepts every pattern.
pub proof fn lemma_accepts_probability(table: Seq<u64>, k: int, draw: u64)
    requires
        0 <= k < table.len(),
    ensures
        table[k] >= ALWAYS ==> accepts(table, k, draw),
        table[k] < ALWAYS ==> (accepts(table, k, draw) <==> (draw as int) < (table[k] as int)
            * 2048),
{
    let a = table[k];
    if a < ALWAYS {
        assert(((draw >> 11u64) < a) == (draw < a * 2048u64)) by (bit_vector)
            requires
                a < 0x20_0000_0000_0000u64,
        ;
        assert(a * 2048u64 == (a as int) * 2048) by (nonlinear_arith)
            requires
                a < 0x20_0000_0000_0000u64,
        ;
    }
}

/// The table a temperature gives: flips with `ΔE ≤ 0` always accepted, a
/// flip with `ΔE = 4` accepted with the temperature's `accept_4`, and one with
/// `ΔE = 8` with its `accept_8`.
pub proof fn lemma_acceptance_of(t: Temperature)
    ensures
        acceptance_of(t).len() == 5,
        acceptance_of(t)[0] == ALWAYS,
        acceptance_of(t)[1] == ALWAYS,
        acceptance_of(t)[2] == ALWAYS,
        acceptance_of(t)[3] == t.accept_4,
        acceptance_of(t)[4] == t.accept_8,
{
}

/// The spin that a fair coin flip with the 64 random bits `draw` gives:
/// `+1` below `2^63`, `−1` otherwise.
pub open spec fn coin_spin(draw: u64) -> i8 {
    if draw < 0x8000_0000_0000_0000 {
        1i8
    } else {
        -1i8
    }
}

/// The coin is fair: reversing the top bit of the random bits reverses the
/// spin, so exactly half of the `2^64` bit patterns give `+1`.
pub proof fn lemma_coin_fair(draw: u64)
    ensures
        coin_spin(draw ^ 0x8000_0000_0000_0000u64) == -coin_spin(draw),
{
    assert((draw < 0x8000_0000_0000_0000u64) == !((draw ^ 0x8000_0000_0000_0000u64)
        < 0x8000_0000_0000_0000u64)) by (bit_vector);
}

/// The spin a fair coin flip gives from 64 random bits, as `rand`'s
/// `gen_bool(0.5)` decides it: `+1` when the bits are below `2^63`.
pub fn spin_from_draw(draw: u64) -> (s: i8)
    ensures
        s == coin_spin(draw),
{
    if draw < 0x8000_0000_0000_0000 {
        1
    } else {
        -1
    }
}

impl IsingModel {
    /// The model's acceptance thresholds, indexed by `(s_i · Σ_nn + 4) / 2`.
    pub open spec fn acceptance(&self) -> Seq<u64> {
        self.exp_table@
    }

    /// `l × l` lattice of `±1` spins, and an acceptance table whose first three
    /// entries (energy not raised) always accept.
    pub open spec fn wf(&self) -> bool {
        &&& lattice_ok(self.l as int, self.spins@)
        &&& self.acceptance().len() == 5
        &&& self.acceptance()[0] == ALWAYS
        &&& self.acceptance()[1] == ALWAYS
        &&& self.acceptance()[2] == ALWAYS
    }

    /// All spins up – good starting point for `T < T_c`.
    pub fn new_ordered(l: usize, t: Temperature) -> (m: Self)
        requires
            lattice_fits(l as int),
        ensures
            m.wf(),
            m.l == l,
            m.spins@ == all_up(l * l),
            m.acceptance() == acceptance_of(t),
            m.exp_table@[3] == t.accept_4,
            m.exp_table@[4] == t.accept_8,
    {
        let n = l * l;
        let mut spins: Vec<i8> = Vec::new();
        let mut j: usize = 0;
        while j < n
            invariant
                j <= n,
                n == l * l,
                spins@ == all_up(j as int),
            decreases n - j,
        {
            spins.push(1);
            j = j + 1;
            assert(spins@ =~= all_up(j as int));
        }
        Self::from_spins(l, t, spins)
    }

    /// Random initial configuration: each spin is `+1` or `−1` by a fair coin.
    pub fn new_random(l: usize, t: Temperature, rng: &mut SmallRng) -> (m: Self)
        requires
            lattice_fits(l as int),
        ensures
            m.wf(),
            m.l == l,
            m.acceptance() == acceptance_of(t),
            m.exp_table@[3] == t.accept_4,
            m.exp_table@[4] == t.accept_8,
    {
        let n = l * l;
        let mut spins: Vec<i8> = Vec::new();
        let mut j: usize = 0;
        while j < n
            invariant
                j <= n,
                n == l * l,
                spins@.len() == j,
                spins_valid(spins@),
            decreases n - j,
        {
            let draw = random_bits(rng);
            spins.push(spin_from_draw(draw));
            j = j + 1;
        }
        Self::from_spins(l, t, spins)
    }

    fn from_spins(l: usize, t: Temperature, spins: Vec<i8>) -> (m: Self)
        ensures
            m.l == l,
            m.spins@ == spins@,
            m.acceptance() == acceptance_of(t),
            m.exp_table@[3] == t.accept_4,
            m.exp_table@[4] == t.accept_8,
            lattice_ok(l as int, spins@) ==> m.wf(),
    {
        let mut model = IsingModel { l, spins, exp_table: [0, 0, 0, 0, 0] };
        model.set_temperature(t);
        model
    }

    /// Update the Metropolis table when scanning temperatures.
    pub fn set_temperature(&mut self, t: Temperature)
        ensures
            final(self).l == old(self).l,
            final(self).spins@ == old(self).spins@,
            final(self).acceptance() == acceptance_of(t),
            final(self).exp_table@.len() == 5,
            final(self).exp_table@[0] == ALWAYS,
            final(self).exp_table@[1] == ALWAYS,
            final(self).exp_table@[2] == ALWAYS,
            final(self).exp_table@[3] == t.accept_4,
            final(self).exp_table@[4] == t.accept_8,
    {
        self.exp_table = [ALWAYS, ALWAYS, ALWAYS, t.accept_4, t.accept_8];
        assert(self.exp_table@ =~= acceptance_of(t));
    }

    /// Sum of the four nearest-neighbour spins at lattice site `i`.
    fn neighbor_sum(&self, i: usize) -> (sum_nn: i32)
        requires
            self.spins@.len() == self.l * self.l,
            i < self.l * self.l,
        ensures
            sum_nn == neighbour_sum(
                self.l as int,
                self.spins@,
                i as int / self.l as int,
                i as int % self.l as int,
            ),
            spins_valid(self.spins@) ==> -4 <= sum_nn <= 4,
    {
        let l = self.l;
        let n = self.spins.len();
        assert(n == l * l);
        proof {
            lemma_index_coords(l as int, i as int);
        }
        let r = i / l;
        let c = i % l;
        let up = if r == 0 { l - 1 } else { r - 1 };
        let down = if r + 1 == l { 0 } else { r + 1 };
        let left = if c == 0 { l - 1 } else { c - 1 };
        let right = if c + 1 == l { 0 } else { c + 1 };
        proof {
            lemma_site_coords(l as int, up as int, c as int);
            lemma_site_coords(l as int, down as int, c as int);
            lemma_site_coords(l as int, r as int, left as int);
            lemma_site_coords(l as int, r as int, right as int);
            assert(up * l <= site(l as int, up as int, c as int));
            assert(down * l <= site(l as int, down as int, c as int));
            assert(r * l <= site(l as int, r as int, left as int));
            if spins_valid(self.spins@) {
                crate::lattice::lemma_neighbour_sum_bounds(l as int, self.spins@, r as int, c as int);
            }
        }
        self.spins[up * l + c] as i32  // up
         + self.spins[down * l + c] as i32  // down
         + self.spins[r * l + left] as i32  // left
         + self.spins[r * l + right] as i32  // right
    }

    /// Energy change when flipping spin at site `i` (without actually flipping).
    pub fn delta_energy(&self, i: usize) -> (de: i64)
        requires
            self.spins@.len() == self.l * self.l,
            i < self.l * self.l,
        ensures
            de == delta_energy(self.l as int, self.spins@, i as int),
    {
        let nn = self.neighbor_sum(i);
        let s = self.spins[i] as i64;
        assert(-512 <= nn <= 512);
        assert(-131072 <= 2 * s * nn <= 131072) by (nonlinear_arith)
            requires
                -128 <= s <= 127,
                -512 <= nn <= 512,
        ;
        2 * s * nn as i64
    }

    /// Index of the flip of spin `i` in the acceptance table.
    fn flip_class(&self, i: usize) -> (k: usize)
        requires
            self.wf(),
            i < self.l * self.l,
        ensures
            k == flip_class(self.l as int, self.spins@, i as int),
            k < 5,
            4 * k - 8 == delta_energy(self.l as int, self.spins@, i as int),
            delta_energy(self.l as int, self.spins@, i as int) <= 0 ==> k <= 2,
    {
        let s = self.spins[i] as i32;
        let sum_nn = self.neighbor_sum(i);
        assert(-4 <= s * sum_nn <= 4) by (nonlinear_arith)
            requires
                s == 1 || s == -1,
                -4 <= sum_nn <= 4,
        ;
        assert(2 * s * sum_nn == 2 * (s * sum_nn)) by (nonlinear_arith);
        proof {
            lemma_flip_class_energy(self.l as int, self.spins@, i as int);
        }
        ((s * sum_nn + 4) / 2) as usize
    }

    /// One Metropolis attempt at site `i`, with the random bits `draw` used for
    /// the acceptance test when the flip raises the energy.
    pub fn metropolis_update(&mut self, i: usize, draw: u64)
        requires
            old(self).wf(),
            i < old(self).l * old(self).l,
        ensures
            final(self).wf(),
            final(self).l == old(self).l,
            final(self).acceptance() == old(self).acceptance(),
            final(self).spins@ == metropolis_update(
                old(self).acceptance(),
                old(self).l as int,
                old(self).spins@,
                i as int,
                draw,
            ),
            delta_energy(old(self).l as int, old(self).spins@, i as int) <= 0
                ==> final(self).spins@ == flip(old(self).spins@, i as int),
            ({
                let k = (delta_energy(old(self).l as int, old(self).spins@, i as int) + 8) / 4;
                let a = old(self).exp_table@[k];
                final(self).spins@ == if a >= ALWAYS || (draw as int) < (a as int) * 2048 {
                    flip(old(self).spins@, i as int)
                } else {
                    old(self).spins@
                }
            }),
    {
        let k = self.flip_class(i);
        proof {
            lemma_accepts_probability(self.exp_table@, k as int, draw);
        }
        if self.exp_table[k] >= ALWAYS || (draw >> 11) < self.exp_table[k] {
            let s = self.spins[i];
            assert(s == 1 || s == -1);
            self.spins.set(i, -s);
            assert(self.spins@ =~= flip(old(self).spins@, i as int));
            assert(spins_valid(self.spins@));
        }
    }

    /// One Monte Carlo sweep: `L²` random single-spin flip attempts.
    pub fn sweep(&mut self, rng: &mut SmallRng)
        requires
            old(self).wf(),
        ensures
            final(self).wf(),
            final(self).l == old(self).l,
            final(self).acceptance() == old(self).acceptance(),
            metropolis_path(
                old(self).acceptance(),
                old(self).l as int,
                old(self).spins@,
                final(self).spins@,
                (old(self).l * old(self).l) as nat,
            ),
    {
        let n = self.l * self.l;
        let ghost table = self.acceptance();
        let ghost l = self.l as int;
        let ghost start = self.spins@;
        let mut attempt: usize = 0;
        proof {
            lemma_path_start(table, l, start);
        }
        while attempt < n
            invariant
                self.wf(),
                self.l == l,
                n == l * l,
                self.acceptance() == table,
                attempt <= n,
                metropolis_path(table, l, start, self.spins@, attempt as nat),
            decreases n - attempt,
        {
            let i = random_site(rng, n);
            let k = self.flip_class(i);
            let draw = if self.exp_table[k] >= ALWAYS {
                0
            } else {
                random_bits(rng)
            };
            let ghost before = self.spins@;
            self.metropolis_update(i, draw);
            proof {
                assert(self.spins@ == metropolis_update(table, l, before, i as int, draw));
                assert(metropolis_step(table, l, before, self.spins@));
                lemma_path_extend(table, l, start, before, self.spins@, attempt as nat);
            }
            attempt = attempt + 1;
        }
    }

    /// Total energy `E = −J Σ_{⟨i,j⟩} s_i s_j`.
    /// Counts right + down bonds at every site (each bond counted once for `L ≥ 3`).
    /// For `L = 2` with periodic boundaries every bond is double-counted; the value
    /// is still consistent with `delta_energy`, but is twice the physical energy.
    pub fn energy(&self) -> (e: i64)
        requires
            self.wf(),
        ensures
            e == energy(self.l as int, self.spins@),
    {
        let l = self.l;
        let ghost s = self.spins@;
        let mut e: i64 = 0;
        let mut r: usize = 0;
        while r < l
            invariant
                self.wf(),
                l == self.l,
                s == self.spins@,
                r <= l,
                e == sum(row_energies(l as int, s), r as int),
                -2 * (r * l) <= e <= 2 * (r * l),
            decreases l - r,
        {
            let mut c: usize = 0;
            while c < l
                invariant
                    self.wf(),
                    l == self.l,
                    s == self.spins@,
                    r < l,
                    c <= l,
                    e == sum(row_energies(l as int, s), r as int) + sum(
                        row_bonds(l as int, s, r as int),
                        c as int,
                    ),
                    -2 * (r * l + c) <= e <= 2 * (r * l + c),
                decreases l - c,
            {
                let down_row = if r + 1 == l { 0 } else { r + 1 };
                let right_col = if c + 1 == l { 0 } else { c + 1 };
                proof {
                    lemma_spin_value(l as int, s, r as int, c as int);
                    lemma_spin_value(l as int, s, r as int, right_col as int);
                    lemma_spin_value(l as int, s, down_row as int, c as int);
                }
                let sc = self.spins[r * l + c] as i64;
                let sr = self.spins[r * l + right_col] as i64;
                let sd = self.spins[down_row * l + c] as i64;
                proof {
                    assert(-1 <= sc * sr <= 1 && -1 <= sc * sd <= 1) by (nonlinear_arith)
                        requires
                            sc == 1 || sc == -1,
                            sr == 1 || sr == -1,
                            sd == 1 || sd == -1,
                    ;
                    assert(bond_energy(l as int, s, r as int, c as int) == -(sc * sr) - (sc * sd))
                        by (nonlinear_arith)
                        requires
                            bond_energy(l as int, s, r as int, c as int) == -sc * (sr + sd),
                    ;
                    assert(2 * (r * l + c) + 2 <= i64::MAX) by (nonlinear_arith)
                        requires
                            r * l + c < l * l,
                            2 * (l * l) <= i64::MAX,
                    ;
                    lemma_sum_step(row_bonds(l as int, s, r as int), c as int);
                }
                e = e - sc * sr;  // right
                e = e - sc * sd;  // down
                c = c + 1;
            }
            proof {
                assert(r * l + l == (r + 1) * l) by (nonlinear_arith);
                lemma_sum_step(row_energies(l as int, s), r as int);
            }
            r = r + 1;
        }
        e
    }

    /// Raw magnetization sum `M = Σ s_i`.
    pub fn magnetization_sum(&self) -> (m: i64)
        requires
            self.wf(),
        ensures
            m == magnetization(self.spins@),
    {
        let n = self.spins.len();
        let mut m: i64 = 0;
        let mut j: usize = 0;
        while j < n
            invariant
                self.wf(),
                n == self.spins@.len(),
                j <= n,
                m == sum(spin_values(self.spins@), j as int),
                -(j as int) <= m <= j as int,
            decreases n - j,
        {
            proof {
                lemma_sum_step(spin_values(self.spins@), j as int);
            }
            assert(self.spins@[j as int] == 1 || self.spins@[j as int] == -1);
            m = m + self.spins[j] as i64;
            j = j + 1;
        }
        m
    }
}

} // verus!
