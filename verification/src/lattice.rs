use vstd::prelude::*;

use crate::sums::{
    lemma_sum_at_minimum, lemma_sum_bounds, lemma_sum_congruent, lemma_sum_constant,
    lemma_sum_differs_at_one, lemma_sum_differs_at_two, lemma_sum_negate, lemma_sum_rotate, lemma_sum_step, ring_add,
    rotate, sum,
};

verus! {

// ─── Geometry of the periodic L × L lattice ─────────────────────────────────
/// Flat index of the site in row `r`, column `c` (row-major order).
pub open spec fn site(l: int, r: int, c: int) -> int {
    r * l + c
}

/// The coordinate after `x` on a ring of `l` positions (periodic boundary).
pub open spec fn next(l: int, x: int) -> int {
    if x + 1 == l {
        0
    } else {
        x + 1
    }
}

/// The coordinate before `x` on a ring of `l` positions (periodic boundary).
pub open spec fn prev(l: int, x: int) -> int {
    if x == 0 {
        l - 1
    } else {
        x - 1
    }
}

/// Every entry of `s` is `+1` or `-1`.
pub open spec fn spins_valid(s: Seq<i8>) -> bool {
    forall|j: int| 0 <= j < s.len() ==> (#[trigger] s[j] == 1 || s[j] == -1)
}

/// `s` is an `l × l` lattice of `±1` spins whose energy fits in an `i64`.
pub open spec fn lattice_ok(l: int, s: Seq<i8>) -> bool {
    &&& s.len() == l * l
    &&& spins_valid(s)
    &&& lattice_fits(l)
}

/// The `l × l` lattice can be indexed by `usize` and its energy, whose
/// magnitude is at most `2 l²`, fits in an `i64`.
pub open spec fn lattice_fits(l: int) -> bool {
    &&& 0 <= l
    &&& l * l <= usize::MAX
    &&& 2 * (l * l) <= i64::MAX
}

/// Spin in row `r`, column `c`.
pub open spec fn spin(l: int, s: Seq<i8>, r: int, c: int) -> int {
    s[site(l, r, c)] as int
}

/// Sum of the four nearest-neighbour spins of the site in row `r`, column `c`:
/// up, down, left, right, with periodic boundary conditions.
pub open spec fn neighbour_sum(l: int, s: Seq<i8>, r: int, c: int) -> int {
    spin(l, s, prev(l, r), c) + spin(l, s, next(l, r), c) + spin(l, s, r, prev(l, c)) + spin(
        l,
        s,
        r,
        next(l, c),
    )
}

// ─── Energy and magnetisation ───────────────────────────────────────────────
/// Energy of the right and down bonds of the site in row `r`, column `c`
/// (with `J = 1`): `−s(r,c) · (s(r,c+1) + s(r+1,c))`.
pub open spec fn bond_energy(l: int, s: Seq<i8>, r: int, c: int) -> int {
    -spin(l, s, r, c) * (spin(l, s, r, next(l, c)) + spin(l, s, next(l, r), c))
}

/// Bond energies of row `r`, indexed by column.
pub open spec fn row_bonds(l: int, s: Seq<i8>, r: int) -> spec_fn(int) -> int {
    |c: int| bond_energy(l, s, r, c)
}

/// Energy of the bonds of row `r`.
pub open spec fn row_energy(l: int, s: Seq<i8>, r: int) -> int {
    sum(row_bonds(l, s, r), l)
}

/// Row energies, indexed by row.
pub open spec fn row_energies(l: int, s: Seq<i8>) -> spec_fn(int) -> int {
    |r: int| row_energy(l, s, r)
}

/// Total energy `E = −Σ s_i s_j` over the right and down bond of every site.
/// For `l ≥ 3` every nearest-neighbour bond is counted once; for `l = 2` every
/// bond is counted twice, since the right and left neighbours coincide.
pub open spec fn energy(l: int, s: Seq<i8>) -> int {
    sum(row_energies(l, s), l)
}

/// Spins of `s`, indexed by flat position.
pub open spec fn spin_values(s: Seq<i8>) -> spec_fn(int) -> int {
    |j: int| s[j] as int
}

/// Magnetisation `M = Σ s_i`.
pub open spec fn magnetization(s: Seq<i8>) -> int {
    sum(spin_values(s), s.len() as int)
}

/// Energy change `2 s_i Σ_nn s_j` of flipping the spin at flat index `i`.
pub open spec fn delta_energy(l: int, s: Seq<i8>, i: int) -> int {
    2 * (s[i] as int) * neighbour_sum(l, s, i / l, i % l)
}

/// `s` with the spin at flat index `i` reversed.
pub open spec fn flip(s: Seq<i8>, i: int) -> Seq<i8> {
    s.update(i, (-s[i]) as i8)
}

/// Every spin of `s` reversed.
pub open spec fn flip_all(s: Seq<i8>) -> Seq<i8> {
    s.map_values(|x: i8| (-x) as i8)
}

// ─── Arithmetic on coordinates ──────────────────────────────────────────────
/// Row and column of a site are recovered from its flat index.
pub proof fn lemma_site_coords(l: int, r: int, c: int)
    requires
        0 <= r < l,
        0 <= c < l,
    ensures
        site(l, r, c) / l == r,
        site(l, r, c) % l == c,
        0 <= site(l, r, c) < l * l,
{
    vstd::arithmetic::div_mod::lemma_fundamental_div_mod_converse(site(l, r, c), l, r, c);
    assert(r * l + c < l * l) by (nonlinear_arith)
        requires
            0 <= r < l,
            0 <= c < l,
    ;
}

/// A flat index is the site of its row and column.
pub proof fn lemma_index_coords(l: int, j: int)
    requires
        0 <= l,
        0 <= j < l * l,
    ensures
        0 <= j / l < l,
        0 <= j % l < l,
        site(l, j / l, j % l) == j,
{
    assert(l > 0) by (nonlinear_arith)
        requires
            0 <= l,
            0 <= j < l * l,
    ;
    vstd::arithmetic::div_mod::lemma_fundamental_div_mod(j, l);
    vstd::arithmetic::div_mod::lemma_mod_bound(j, l);
    vstd::arithmetic::div_mod::lemma_div_pos_is_pos(j, l);
    vstd::arithmetic::div_mod::lemma_div_by_multiple_is_strongly_ordered(j, l * l, l, l);
    assert(l * l / l == l) by {
        vstd::arithmetic::div_mod::lemma_div_by_multiple(l, l);
    }
    assert(j == l * (j / l) + j % l);
    assert(l * (j / l) == (j / l) * l) by (nonlinear_arith);
}

/// Distinct coordinates give distinct sites.
pub proof fn lemma_site_injective(l: int, r1: int, c1: int, r2: int, c2: int)
    requires
        0 <= r1 < l,
        0 <= c1 < l,
        0 <= r2 < l,
        0 <= c2 < l,
        site(l, r1, c1) == site(l, r2, c2),
    ensures
        r1 == r2,
        c1 == c2,
{
    lemma_site_coords(l, r1, c1);
    lemma_site_coords(l, r2, c2);
}


/// After flipping the spin at `(rk, ck)`, that spin is reversed and every
/// other spin is unchanged.
pub proof fn lemma_flip_spin(l: int, s: Seq<i8>, rk: int, ck: int, r: int, c: int)
    requires
        0 <= l,
        s.len() == l * l,
        spins_valid(s),
        0 <= rk < l,
        0 <= ck < l,
        0 <= r < l,
        0 <= c < l,
    ensures
        (r == rk && c == ck) ==> spin(l, flip(s, site(l, rk, ck)), r, c) == -spin(l, s, r, c),
        !(r == rk && c == ck) ==> spin(l, flip(s, site(l, rk, ck)), r, c) == spin(l, s, r, c),
{
    lemma_site_coords(l, rk, ck);
    lemma_site_coords(l, r, c);
    let k = site(l, rk, ck);
    assert(s[k] == 1 || s[k] == -1);
    if !(r == rk && c == ck) {
        if site(l, r, c) == k {
            lemma_site_injective(l, r, c, rk, ck);
        }
    }
}

/// The neighbour coordinates stay on the ring, and on a ring of at least two
/// positions they differ from `x` and undo each other.
pub proof fn lemma_ring(l: int, x: int)
    requires
        2 <= l,
        0 <= x < l,
    ensures
        0 <= next(l, x) < l,
        0 <= prev(l, x) < l,
        next(l, x) != x,
        prev(l, x) != x,
        next(l, prev(l, x)) == x,
        prev(l, next(l, x)) == x,
        forall|y: int| 0 <= y < l ==> (next(l, y) == x <==> y == prev(l, x)),
{
}

/// Flipping one spin changes the energy by `2 s_k Σ_nn s_j`, the spin times the
/// sum of its four neighbours, on every lattice with `l ≥ 2`.
pub proof fn lemma_flip_energy(l: int, s: Seq<i8>, rk: int, ck: int)
    requires
        2 <= l,
        s.len() == l * l,
        spins_valid(s),
        0 <= rk < l,
        0 <= ck < l,
    ensures
        energy(l, flip(s, site(l, rk, ck))) - energy(l, s) == 2 * spin(l, s, rk, ck)
            * neighbour_sum(l, s, rk, ck),
{
    let t = flip(s, site(l, rk, ck));
    let prk = prev(l, rk);
    let nrk = next(l, rk);
    let pck = prev(l, ck);
    let nck = next(l, ck);
    lemma_ring(l, rk);
    lemma_ring(l, ck);
    let sk = spin(l, s, rk, ck);
    let right = spin(l, s, rk, nck);
    let down = spin(l, s, nrk, ck);
    let left = spin(l, s, rk, pck);
    let up = spin(l, s, prk, ck);

    // Rows other than `rk` and `prev(rk)` keep every bond energy.
    assert forall|r: int| 0 <= r < l && r != rk && r != prk implies #[trigger] row_energies(
        l,
        s,
    )(r) == row_energies(l, t)(r) by {
        lemma_ring(l, r);
        assert forall|c: int| 0 <= c < l implies #[trigger] row_bonds(l, s, r)(c) == row_bonds(
            l,
            t,
            r,
        )(c) by {
            lemma_ring(l, c);
            lemma_flip_spin(l, s, rk, ck, r, c);
            lemma_flip_spin(l, s, rk, ck, r, next(l, c));
            lemma_flip_spin(l, s, rk, ck, next(l, r), c);
        }
        lemma_sum_congruent(row_bonds(l, s, r), row_bonds(l, t, r), l);
    }
    lemma_sum_differs_at_two(row_energies(l, s), row_energies(l, t), l, rk, prk);

    // Row `rk`: the bonds at columns `ck` and `prev(ck)` change.
    assert forall|c: int| 0 <= c < l && c != ck && c != pck implies #[trigger] row_bonds(l, s, rk)(
        c,
    ) == row_bonds(l, t, rk)(c) by {
        lemma_ring(l, c);
        lemma_flip_spin(l, s, rk, ck, rk, c);
        lemma_flip_spin(l, s, rk, ck, rk, next(l, c));
        lemma_flip_spin(l, s, rk, ck, nrk, c);
    }
    lemma_sum_differs_at_two(row_bonds(l, s, rk), row_bonds(l, t, rk), l, ck, pck);
    lemma_flip_spin(l, s, rk, ck, rk, ck);
    lemma_flip_spin(l, s, rk, ck, rk, nck);
    lemma_flip_spin(l, s, rk, ck, nrk, ck);
    lemma_flip_spin(l, s, rk, ck, rk, pck);
    lemma_flip_spin(l, s, rk, ck, nrk, pck);
    let d_rk_pck = spin(l, s, nrk, pck);
    assert(bond_energy(l, t, rk, ck) - bond_energy(l, s, rk, ck) == 2 * sk * (right + down))
        by (nonlinear_arith)
        requires
            spin(l, t, rk, ck) == -sk,
            spin(l, s, rk, ck) == sk,
            spin(l, t, rk, nck) == right,
            spin(l, s, rk, nck) == right,
            spin(l, t, nrk, ck) == down,
            spin(l, s, nrk, ck) == down,
            bond_energy(l, t, rk, ck) == -spin(l, t, rk, ck) * (spin(l, t, rk, nck) + spin(
                l,
                t,
                nrk,
                ck,
            )),
            bond_energy(l, s, rk, ck) == -spin(l, s, rk, ck) * (spin(l, s, rk, nck) + spin(
                l,
                s,
                nrk,
                ck,
            )),
    ;
    assert(next(l, pck) == ck);
    assert(bond_energy(l, t, rk, pck) - bond_energy(l, s, rk, pck) == 2 * sk * left)
        by (nonlinear_arith)
        requires
            spin(l, t, rk, pck) == left,
            spin(l, s, rk, pck) == left,
            spin(l, t, rk, ck) == -sk,
            spin(l, s, rk, ck) == sk,
            spin(l, t, nrk, pck) == d_rk_pck,
            spin(l, s, nrk, pck) == d_rk_pck,
            bond_energy(l, t, rk, pck) == -spin(l, t, rk, pck) * (spin(l, t, rk, ck) + spin(
                l,
                t,
                nrk,
                pck,
            )),
            bond_energy(l, s, rk, pck) == -spin(l, s, rk, pck) * (spin(l, s, rk, ck) + spin(
                l,
                s,
                nrk,
                pck,
            )),
    ;

    // Row `prev(rk)`: only the bond at column `ck` changes.
    assert forall|c: int| 0 <= c < l && c != ck implies #[trigger] row_bonds(l, s, prk)(c)
        == row_bonds(l, t, prk)(c) by {
        lemma_ring(l, c);
        lemma_flip_spin(l, s, rk, ck, prk, c);
        lemma_flip_spin(l, s, rk, ck, prk, next(l, c));
        lemma_flip_spin(l, s, rk, ck, rk, c);
    }
    lemma_sum_differs_at_one(row_bonds(l, s, prk), row_bonds(l, t, prk), l, ck);
    lemma_flip_spin(l, s, rk, ck, prk, ck);
    lemma_flip_spin(l, s, rk, ck, prk, nck);
    let r_prk = spin(l, s, prk, nck);
    assert(bond_energy(l, t, prk, ck) - bond_energy(l, s, prk, ck) == 2 * sk * up)
        by (nonlinear_arith)
        requires
            spin(l, t, prk, ck) == up,
            spin(l, s, prk, ck) == up,
            spin(l, t, rk, ck) == -sk,
            spin(l, s, rk, ck) == sk,
            spin(l, t, prk, nck) == r_prk,
            spin(l, s, prk, nck) == r_prk,
            bond_energy(l, t, prk, ck) == -spin(l, t, prk, ck) * (spin(l, t, prk, nck) + spin(
                l,
                t,
                rk,
                ck,
            )),
            bond_energy(l, s, prk, ck) == -spin(l, s, prk, ck) * (spin(l, s, prk, nck) + spin(
                l,
                s,
                rk,
                ck,
            )),
    ;
    assert(2 * sk * (right + down) + 2 * sk * left + 2 * sk * up == 2 * sk * (up + down + left
        + right)) by (nonlinear_arith);
}

/// The flat-index form of `lemma_flip_energy`: flipping the spin at `i`
/// changes the energy by `delta_energy(l, s, i)` whenever `l ≥ 2`.
pub proof fn lemma_flip_energy_at(l: int, s: Seq<i8>, i: int)
    requires
        2 <= l,
        s.len() == l * l,
        spins_valid(s),
        0 <= i < l * l,
    ensures
        energy(l, flip(s, i)) - energy(l, s) == delta_energy(l, s, i),
{
    lemma_index_coords(l, i);
    lemma_flip_energy(l, s, i / l, i % l);
}

/// Reversing every spin leaves each bond energy, hence the energy, unchanged.
pub proof fn lemma_flip_all_energy(l: int, s: Seq<i8>)
    requires
        0 <= l,
        s.len() == l * l,
        spins_valid(s),
    ensures
        energy(l, flip_all(s)) == energy(l, s),
{
    let t = flip_all(s);
    assert forall|r: int| 0 <= r < l implies #[trigger] row_energies(l, s)(r) == row_energies(
        l,
        t,
    )(r) by {
        assert forall|c: int| 0 <= c < l implies #[trigger] row_bonds(l, s, r)(c) == row_bonds(
            l,
            t,
            r,
        )(c) by {
            let nr = next(l, r);
            let nc = next(l, c);
            lemma_site_coords(l, r, c);
            lemma_site_coords(l, r, nc);
            lemma_site_coords(l, nr, c);
            if l >= 2 {
                lemma_ring(l, r);
                lemma_ring(l, c);
            }
            let a = spin(l, s, r, c);
            let b = spin(l, s, r, nc);
            let d = spin(l, s, nr, c);
            assert(s[site(l, r, c)] == 1 || s[site(l, r, c)] == -1);
            assert(s[site(l, r, nc)] == 1 || s[site(l, r, nc)] == -1);
            assert(s[site(l, nr, c)] == 1 || s[site(l, nr, c)] == -1);
            assert(spin(l, t, r, c) == -a);
            assert(spin(l, t, r, nc) == -b);
            assert(spin(l, t, nr, c) == -d);
            assert(-a * (b + d) == -(-a) * ((-b) + (-d))) by (nonlinear_arith);
        }
        lemma_sum_congruent(row_bonds(l, s, r), row_bonds(l, t, r), l);
    }
    lemma_sum_congruent(row_energies(l, s), row_energies(l, t), l);
}

/// Reversing every spin negates the magnetisation.
pub proof fn lemma_flip_all_magnetization(s: Seq<i8>)
    requires
        spins_valid(s),
    ensures
        magnetization(flip_all(s)) == -magnetization(s),
{
    let t = flip_all(s);
    assert forall|j: int| 0 <= j < s.len() implies #[trigger] spin_values(t)(j) == -spin_values(
        s,
    )(j) by {
        assert(s[j] == 1 || s[j] == -1);
    }
    lemma_sum_negate(spin_values(s), spin_values(t), s.len() as int);
}

/// The lattice with every spin up.
pub open spec fn all_up(n: int) -> Seq<i8> {
    Seq::new(n as nat, |j: int| 1i8)
}

/// With every spin up each site's two bonds contribute `−1` each, so
/// `E = −2 l²`, and `M = l²`.
pub proof fn lemma_all_up(l: int)
    requires
        0 <= l,
    ensures
        energy(l, all_up(l * l)) == -2 * (l * l),
        magnetization(all_up(l * l)) == l * l,
{
    let s = all_up(l * l);
    assert(l * l >= 0) by (nonlinear_arith)
        requires
            0 <= l,
    ;
    assert forall|r: int| 0 <= r < l implies #[trigger] row_energies(l, s)(r) == -2 * l by {
        assert forall|c: int| 0 <= c < l implies #[trigger] row_bonds(l, s, r)(c) == -2 by {
            lemma_site_coords(l, r, c);
            if l >= 2 {
                lemma_ring(l, r);
                lemma_ring(l, c);
            }
            assert(0 <= next(l, c) < l && 0 <= next(l, r) < l);
            lemma_site_coords(l, r, next(l, c));
            lemma_site_coords(l, next(l, r), c);
            assert(spin(l, s, r, c) == 1);
            assert(spin(l, s, r, next(l, c)) == 1);
            assert(spin(l, s, next(l, r), c) == 1);
            assert(bond_energy(l, s, r, c) == -2);
        }
        lemma_sum_constant(row_bonds(l, s, r), l, -2);
    }
    lemma_sum_constant(row_energies(l, s), l, -2 * l);
    assert(-2 * l * l == -2 * (l * l)) by (nonlinear_arith);
    lemma_sum_constant(spin_values(s), l * l, 1);
}

/// The checkerboard lattice: the spin in row `r`, column `c` is `+1` when
/// `r + c` is even and `−1` when it is odd.
pub open spec fn checkerboard(l: int) -> Seq<i8> {
    Seq::new((l * l) as nat, |j: int| if (j / l + j % l) % 2 == 0 { 1i8 } else { -1i8 })
}

/// On an even lattice every bond of the checkerboard joins opposite spins,
/// so `E = +2 l²`.
pub proof fn lemma_checkerboard_energy(l: int)
    requires
        0 <= l,
        l % 2 == 0,
    ensures
        energy(l, checkerboard(l)) == 2 * (l * l),
{
    let s = checkerboard(l);
    assert(l * l >= 0) by (nonlinear_arith)
        requires
            0 <= l,
    ;
    assert forall|r: int, c: int| 0 <= r < l && 0 <= c < l implies #[trigger] spin(l, s, r, c) == (
    if (r + c) % 2 == 0 {
        1int
    } else {
        -1int
    }) by {
        lemma_site_coords(l, r, c);
    }
    assert forall|r: int| 0 <= r < l implies #[trigger] row_energies(l, s)(r) == 2 * l by {
        assert forall|c: int| 0 <= c < l implies #[trigger] row_bonds(l, s, r)(c) == 2 by {
            lemma_ring(l, r);
            lemma_ring(l, c);
            let a = spin(l, s, r, c);
            let b = spin(l, s, r, next(l, c));
            let d = spin(l, s, next(l, r), c);
            assert((r + next(l, c)) % 2 != (r + c) % 2);
            assert((next(l, r) + c) % 2 != (r + c) % 2);
            assert(b == -a);
            assert(d == -a);
            assert(-a * (b + d) == 2) by (nonlinear_arith)
                requires
                    a == 1 || a == -1,
                    b == -a,
                    d == -a,
            ;
            assert(bond_energy(l, s, r, c) == 2);
        }
        lemma_sum_constant(row_bonds(l, s, r), l, 2);
    }
    lemma_sum_constant(row_energies(l, s), l, 2 * l);
    assert(2 * l * l == 2 * (l * l)) by (nonlinear_arith);
}

/// Flipping the same spin twice restores the lattice.
pub proof fn lemma_flip_twice(s: Seq<i8>, i: int)
    requires
        spins_valid(s),
        0 <= i < s.len(),
    ensures
        flip(flip(s, i), i) == s,
{
    assert(s[i] == 1 || s[i] == -1);
    assert(flip(flip(s, i), i) =~= s);
}

/// A single flip keeps the lattice shape and keeps every spin `±1`.
pub proof fn lemma_flip_valid(l: int, s: Seq<i8>, i: int)
    requires
        lattice_ok(l, s),
        0 <= i < s.len(),
    ensures
        lattice_ok(l, flip(s, i)),
{
    assert(s[i] == 1 || s[i] == -1);
}

/// The neighbour sum of any site lies in `{−4, −2, 0, 2, 4}`, so the flip
/// changes the energy by one of `−8, −4, 0, 4, 8`: `ΔE = 4k − 8` with the table
/// index `k = (s_i · Σ_nn + 4) / 2` in `0..5`.
pub proof fn lemma_delta_energy_values(l: int, s: Seq<i8>, i: int)
    requires
        lattice_ok(l, s),
        0 <= i < l * l,
    ensures
        0 <= ((s[i] as int) * neighbour_sum(l, s, i / l, i % l) + 4) / 2 <= 4,
        delta_energy(l, s, i) == 4 * (((s[i] as int) * neighbour_sum(l, s, i / l, i % l) + 4)
            / 2) - 8,
{
    lemma_index_coords(l, i);
    let r = i / l;
    let c = i % l;
    assert(0 <= next(l, r) < l && 0 <= prev(l, r) < l && 0 <= next(l, c) < l && 0 <= prev(l, c)
        < l);
    lemma_site_coords(l, prev(l, r), c);
    lemma_site_coords(l, next(l, r), c);
    lemma_site_coords(l, r, prev(l, c));
    lemma_site_coords(l, r, next(l, c));
    let a = spin(l, s, prev(l, r), c);
    let b = spin(l, s, next(l, r), c);
    let d = spin(l, s, r, prev(l, c));
    let e = spin(l, s, r, next(l, c));
    let x = s[i] as int;
    assert(a == 1 || a == -1);
    assert(b == 1 || b == -1);
    assert(d == 1 || d == -1);
    assert(e == 1 || e == -1);
    assert(x == 1 || x == -1);
    let ns = a + b + d + e;
    assert(ns == -4 || ns == -2 || ns == 0 || ns == 2 || ns == 4);
    let p = x * ns;
    assert(p == -4 || p == -2 || p == 0 || p == 2 || p == 4) by (nonlinear_arith)
        requires
            x == 1 || x == -1,
            ns == -4 || ns == -2 || ns == 0 || ns == 2 || ns == 4,
            p == x * ns,
    ;
    assert(2 * x * ns == 2 * p) by (nonlinear_arith)
        requires
            p == x * ns,
    ;
}

/// On the all-up lattice every flip costs `ΔE = 8`: four satisfied bonds break.
pub proof fn lemma_all_up_delta_energy(l: int, i: int)
    requires
        0 <= l,
        0 <= i < l * l,
    ensures
        delta_energy(l, all_up(l * l), i) == 8,
{
    let s = all_up(l * l);
    lemma_index_coords(l, i);
    let r = i / l;
    let c = i % l;
    assert(0 <= next(l, r) < l && 0 <= prev(l, r) < l && 0 <= next(l, c) < l && 0 <= prev(l, c)
        < l);
    lemma_site_coords(l, prev(l, r), c);
    lemma_site_coords(l, next(l, r), c);
    lemma_site_coords(l, r, prev(l, c));
    lemma_site_coords(l, r, next(l, c));
    assert(neighbour_sum(l, s, r, c) == 4);
}

/// On an even checkerboard every neighbour is opposite, so every flip gains
/// `ΔE = −8`.
pub proof fn lemma_checkerboard_delta_energy(l: int, i: int)
    requires
        2 <= l,
        l % 2 == 0,
        0 <= i < l * l,
    ensures
        delta_energy(l, checkerboard(l), i) == -8,
{
    let s = checkerboard(l);
    lemma_index_coords(l, i);
    let r = i / l;
    let c = i % l;
    lemma_ring(l, r);
    lemma_ring(l, c);
    assert forall|r2: int, c2: int| 0 <= r2 < l && 0 <= c2 < l implies #[trigger] spin(
        l,
        s,
        r2,
        c2,
    ) == (if (r2 + c2) % 2 == 0 {
        1int
    } else {
        -1int
    }) by {
        lemma_site_coords(l, r2, c2);
    }
    assert((prev(l, r) + c) % 2 != (r + c) % 2);
    assert((next(l, r) + c) % 2 != (r + c) % 2);
    assert((r + prev(l, c)) % 2 != (r + c) % 2);
    assert((r + next(l, c)) % 2 != (r + c) % 2);
    let x = spin(l, s, r, c);
    assert(s[i] as int == x);
    assert(neighbour_sum(l, s, r, c) == -4 * x);
    assert(2 * x * (-4 * x) == -8) by (nonlinear_arith)
        requires
            x == 1 || x == -1,
    ;
}

/// `s` translated by `dr` rows and `dc` columns on the periodic lattice: the
/// spin in row `r`, column `c` of the result is the spin in row
/// `(r + dr) % l`, column `(c + dc) % l` of `s`.
pub open spec fn translate(l: int, s: Seq<i8>, dr: int, dc: int) -> Seq<i8> {
    Seq::new((l * l) as nat, |j: int| s[site(l, (j / l + dr) % l, (j % l + dc) % l)])
}

/// `(x + d) % l` is `x` moved `d % l` positions round the ring.
proof fn lemma_ring_add_mod(l: int, x: int, d: int)
    requires
        0 <= x < l,
        0 <= d,
    ensures
        0 <= d % l < l,
        (x + d) % l == ring_add(l, x, d % l),
{
    vstd::arithmetic::div_mod::lemma_mod_bound(d, l);
    vstd::arithmetic::div_mod::lemma_add_mod_noop(x, d, l);
    vstd::arithmetic::div_mod::lemma_small_mod(x as nat, l as nat);
    let y = x + d % l;
    if y < l {
        vstd::arithmetic::div_mod::lemma_small_mod(y as nat, l as nat);
    } else {
        vstd::arithmetic::div_mod::lemma_fundamental_div_mod_converse(y, l, 1, y - l);
    }
}

/// The energy is unchanged by a cyclic translation of rows and columns: the
/// periodic lattice has no distinguished origin.
pub proof fn lemma_translate_energy(l: int, s: Seq<i8>, dr: int, dc: int)
    requires
        0 <= l,
        s.len() == l * l,
        0 <= dr,
        0 <= dc,
    ensures
        energy(l, translate(l, s, dr, dc)) == energy(l, s),
{
    if l > 0 {
        let t = translate(l, s, dr, dc);
        let a = dr % l;
        let b = dc % l;
        lemma_ring_add_mod(l, 0, dr);
        lemma_ring_add_mod(l, 0, dc);
        assert forall|r: int, c: int| 0 <= r < l && 0 <= c < l implies #[trigger] spin(l, t, r, c)
            == spin(l, s, ring_add(l, r, a), ring_add(l, c, b)) by {
            lemma_site_coords(l, r, c);
            lemma_ring_add_mod(l, r, dr);
            lemma_ring_add_mod(l, c, dc);
        }
        assert forall|r: int| 0 <= r < l implies #[trigger] row_energies(l, t)(r) == rotate(
            row_energies(l, s),
            l,
            a,
        )(r) by {
            let rr = ring_add(l, r, a);
            assert(0 <= next(l, r) < l);
            assert(ring_add(l, next(l, r), a) == next(l, rr));
            assert forall|c: int| 0 <= c < l implies #[trigger] row_bonds(l, t, r)(c) == rotate(
                row_bonds(l, s, rr),
                l,
                b,
            )(c) by {
                assert(0 <= next(l, c) < l);
                assert(ring_add(l, next(l, c), b) == next(l, ring_add(l, c, b)));
                assert(spin(l, t, r, c) == spin(l, s, rr, ring_add(l, c, b)));
                assert(spin(l, t, r, next(l, c)) == spin(l, s, rr, ring_add(l, next(l, c), b)));
                assert(spin(l, t, next(l, r), c) == spin(
                    l,
                    s,
                    ring_add(l, next(l, r), a),
                    ring_add(l, c, b),
                ));
            }
            lemma_sum_congruent(row_bonds(l, t, r), rotate(row_bonds(l, s, rr), l, b), l);
            lemma_sum_rotate(row_bonds(l, s, rr), l, b);
        }
        lemma_sum_congruent(row_energies(l, t), rotate(row_energies(l, s), l, a), l);
        lemma_sum_rotate(row_energies(l, s), l, a);
    }
}

/// A spin of a valid lattice is `±1`, at a site within the lattice.
pub proof fn lemma_spin_value(l: int, s: Seq<i8>, r: int, c: int)
    requires
        s.len() == l * l,
        spins_valid(s),
        0 <= r < l,
        0 <= c < l,
    ensures
        0 <= site(l, r, c) < l * l,
        r * l <= site(l, r, c),
        spin(l, s, r, c) == 1 || spin(l, s, r, c) == -1,
        s[site(l, r, c)] == 1 || s[site(l, r, c)] == -1,
{
    lemma_site_coords(l, r, c);
}

/// A bond energy of a valid lattice is `−2`, `0` or `2`, and it is `−2`
/// exactly when the site agrees with its right and down neighbours.
pub proof fn lemma_bond_values(l: int, s: Seq<i8>, r: int, c: int)
    requires
        lattice_ok(l, s),
        0 <= r < l,
        0 <= c < l,
    ensures
        -2 <= bond_energy(l, s, r, c) <= 2,
        bond_energy(l, s, r, c) == -2 <==> (spin(l, s, r, c) == spin(l, s, r, next(l, c)) && spin(
            l,
            s,
            r,
            c,
        ) == spin(l, s, next(l, r), c)),
{
    assert(0 <= next(l, r) < l && 0 <= next(l, c) < l);
    lemma_spin_value(l, s, r, c);
    lemma_spin_value(l, s, r, next(l, c));
    lemma_spin_value(l, s, next(l, r), c);
    let a = spin(l, s, r, c);
    let b = spin(l, s, r, next(l, c));
    let d = spin(l, s, next(l, r), c);
    assert(-2 <= -a * (b + d) <= 2 && (-a * (b + d) == -2 <==> (a == b && a == d)))
        by (nonlinear_arith)
        requires
            a == 1 || a == -1,
            b == 1 || b == -1,
            d == 1 || d == -1,
    ;
}

/// `s` on the sites before `k`, and spin up from `k` on.
pub open spec fn prefix_of(s: Seq<i8>, k: int) -> Seq<i8> {
    Seq::new(s.len(), |j: int| if j < k { s[j] } else { 1i8 })
}

/// On a single site both bonds join the spin to itself: `E = −2`.
pub proof fn lemma_single_site_energy(s: Seq<i8>)
    requires
        lattice_ok(1, s),
    ensures
        energy(1, s) == -2,
{
    lemma_bond_values(1, s, 0, 0);
    lemma_sum_step(row_bonds(1, s, 0), 0);
    lemma_sum_step(row_energies(1, s), 0);
    assert(row_energy(1, s, 0) == row_bonds(1, s, 0)(0));
    assert(energy(1, s) == row_energies(1, s)(0));
}

/// Taking one more site from `s` changes the energy by a multiple of 4,
/// for `l ≥ 2`.
proof fn lemma_prefix_step(l: int, s: Seq<i8>, k: int) -> (d: int)
    requires
        2 <= l,
        lattice_ok(l, s),
        lattice_ok(l, prefix_of(s, k)),
        0 <= k < l * l,
    ensures
        lattice_ok(l, prefix_of(s, k + 1)),
        energy(l, prefix_of(s, k + 1)) == energy(l, prefix_of(s, k)) + 4 * d,
{
    let p = prefix_of(s, k);
    if s[k] == 1 {
        assert(prefix_of(s, k + 1) =~= p);
        0
    } else {
        assert(s[k] == -1);
        assert(prefix_of(s, k + 1) =~= flip(p, k));
        lemma_flip_energy_at(l, p, k);
        lemma_delta_energy_values(l, p, k);
        lemma_flip_valid(l, p, k);
        ((p[k] as int) * neighbour_sum(l, p, k / l, k % l) + 4) / 2 - 2
    }
}

/// The lattices that agree with `s` before site `k` and are up from `k` on
/// have energies `4q − 2 l²`, for `l ≥ 2`.
proof fn lemma_prefix_energy_parity(l: int, s: Seq<i8>, k: int) -> (q: int)
    requires
        2 <= l,
        lattice_ok(l, s),
        0 <= k <= l * l,
    ensures
        lattice_ok(l, prefix_of(s, k)),
        energy(l, prefix_of(s, k)) + 2 * (l * l) == 4 * q,
    decreases k,
{
    if k == 0 {
        lemma_prefix_empty(l, s, k);
        0
    } else {
        let q0 = lemma_prefix_energy_parity(l, s, k - 1);
        let d = lemma_prefix_step(l, s, k - 1);
        q0 + d
    }
}

/// Every spin of `s` equals the spin at site 0.
pub open spec fn uniform(s: Seq<i8>) -> bool {
    forall|j: int| 0 <= j < s.len() ==> #[trigger] s[j] == s[0]
}

/// When every bond energy is `−2`, each row is constant along its columns.
proof fn lemma_row_constant(l: int, s: Seq<i8>, r: int, c: int)
    requires
        lattice_ok(l, s),
        0 <= r < l,
        0 <= c < l,
        forall|r2: int, c2: int|
            0 <= r2 < l && 0 <= c2 < l ==> #[trigger] bond_energy(l, s, r2, c2) == -2,
    ensures
        spin(l, s, r, c) == spin(l, s, r, 0),
    decreases c,
{
    if c > 0 {
        lemma_row_constant(l, s, r, c - 1);
        lemma_bond_values(l, s, r, c - 1);
        assert(bond_energy(l, s, r, c - 1) == -2);
        assert(next(l, c - 1) == c);
    }
}

/// When every bond energy is `−2`, the first column is constant.
proof fn lemma_column_constant(l: int, s: Seq<i8>, r: int)
    requires
        lattice_ok(l, s),
        0 <= r < l,
        forall|r2: int, c2: int|
            0 <= r2 < l && 0 <= c2 < l ==> #[trigger] bond_energy(l, s, r2, c2) == -2,
    ensures
        spin(l, s, r, 0) == spin(l, s, 0, 0),
    decreases r,
{
    if r > 0 {
        lemma_column_constant(l, s, r - 1);
        lemma_bond_values(l, s, r - 1, 0);
        assert(bond_energy(l, s, r - 1, 0) == -2);
        assert(next(l, r - 1) == r);
    }
}

/// The energy of a valid lattice lies in `[−2 l², 2 l²]`, differs from the
/// minimum `−2 l²` by a multiple of 4, and reaches the minimum exactly when
/// all spins are equal (the two ground states).
pub proof fn lemma_energy_range(l: int, s: Seq<i8>)
    requires
        lattice_ok(l, s),
    ensures
        -2 * (l * l) <= energy(l, s) <= 2 * (l * l),
        (energy(l, s) + 2 * (l * l)) % 4 == 0,
        energy(l, s) == -2 * (l * l) <==> uniform(s),
{
    // Range: every bond energy is in [−2, 2].
    assert forall|r: int| 0 <= r < l implies -2 * l <= #[trigger] row_energies(l, s)(r) <= 2 * l by {
        assert forall|c: int| 0 <= c < l implies -2 <= #[trigger] row_bonds(l, s, r)(c) <= 2 by {
            lemma_bond_values(l, s, r, c);
        }
        lemma_sum_bounds(row_bonds(l, s, r), l, -2, 2);
    }
    lemma_sum_bounds(row_energies(l, s), l, -2 * l, 2 * l);
    assert(-2 * l * l == -2 * (l * l) && 2 * l * l == 2 * (l * l)) by (nonlinear_arith);

    // Parity.
    if l == 0 {
        assert(energy(0, s) == 0);
    } else if l == 1 {
        lemma_single_site_energy(s);
    } else {
        let q = lemma_prefix_energy_parity(l, s, l * l);
        assert(prefix_of(s, l * l) =~= s);
        vstd::arithmetic::div_mod::lemma_mod_multiples_basic(q, 4);
        assert(4 * q == q * 4) by (nonlinear_arith);
    }

    // Ground states.
    if l > 0 {
        lemma_spin_value(l, s, 0, 0);
        assert(site(l, 0, 0) == 0);
        if energy(l, s) == -2 * (l * l) {
            assert(sum(row_energies(l, s), l) == (-2 * l) * l) by (nonlinear_arith)
                requires
                    sum(row_energies(l, s), l) == -2 * (l * l),
            ;
            lemma_sum_at_minimum(row_energies(l, s), l, -2 * l);
            assert forall|r: int, c: int| 0 <= r < l && 0 <= c < l implies #[trigger] bond_energy(
                l,
                s,
                r,
                c,
            ) == -2 by {
                assert(row_energies(l, s)(r) == -2 * l);
                assert forall|c2: int| 0 <= c2 < l implies -2 <= #[trigger] row_bonds(l, s, r)(c2) by {
                    lemma_bond_values(l, s, r, c2);
                }
                lemma_sum_at_minimum(row_bonds(l, s, r), l, -2);
                assert(row_bonds(l, s, r)(c) == -2);
            }
            assert forall|j: int| 0 <= j < s.len() implies #[trigger] s[j] == s[0] by {
                lemma_index_coords(l, j);
                lemma_row_constant(l, s, j / l, j % l);
                lemma_column_constant(l, s, j / l);
            }
        }
        if uniform(s) {
            if s[0] == 1 {
                assert(s =~= all_up(l * l));
                lemma_all_up(l);
            } else {
                assert(s =~= flip_all(all_up(l * l)));
                lemma_all_up(l);
                lemma_flip_all_energy(l, all_up(l * l));
            }
        }
    }
}

/// With `±1` spins the neighbour sum lies in `[−4, 4]`.
pub proof fn lemma_neighbour_sum_bounds(l: int, s: Seq<i8>, r: int, c: int)
    requires
        s.len() == l * l,
        spins_valid(s),
        0 <= r < l,
        0 <= c < l,
    ensures
        -4 <= neighbour_sum(l, s, r, c) <= 4,
{
    assert(0 <= next(l, r) < l && 0 <= prev(l, r) < l && 0 <= next(l, c) < l && 0 <= prev(l, c)
        < l);
    lemma_spin_value(l, s, prev(l, r), c);
    lemma_spin_value(l, s, next(l, r), c);
    lemma_spin_value(l, s, r, prev(l, c));
    lemma_spin_value(l, s, r, next(l, c));
}

/// Before any site is taken from `s`, the prefix lattice is all up.
proof fn lemma_prefix_empty(l: int, s: Seq<i8>, k: int)
    requires
        lattice_ok(l, s),
        k == 0,
    ensures
        prefix_of(s, k) == all_up(l * l),
        lattice_ok(l, prefix_of(s, k)),
        energy(l, prefix_of(s, k)) + 2 * (l * l) == 0,
{
    assert(prefix_of(s, k) =~= all_up(l * l));
    lemma_all_up(l);
}

/// Flipping one spin changes the magnetisation by `−2 s_i`: together with
/// `M = l²` on the all-up lattice this fixes `M = Σ s_i` on every lattice.
pub proof fn lemma_magnetization_flip(s: Seq<i8>, i: int)
    requires
        spins_valid(s),
        0 <= i < s.len(),
    ensures
        magnetization(flip(s, i)) == magnetization(s) - 2 * (s[i] as int),
{
    let t = flip(s, i);
    assert(s[i] == 1 || s[i] == -1);
    assert forall|j: int| 0 <= j < s.len() && j != i implies #[trigger] spin_values(s)(j)
        == spin_values(t)(j) by {}
    lemma_sum_differs_at_one(spin_values(s), spin_values(t), s.len() as int, i);
    assert(spin_values(t)(i) == -(s[i] as int));
}

} // verus!
