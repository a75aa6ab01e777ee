//! The Keccak-f[1600] permutation: 24 rounds over a state of 25 lanes of 64
//! bits, each round being theta, rho, pi, chi and iota in that order.
//!
//! Every step has a specification over `Seq<u64>` and an executable
//! counterpart proved to match it lane by lane; [`f1600`] is proved to apply
//! exactly [`keccak_f`] to the state.

use vstd::prelude::*;

verus! {

/// Left rotation of a 64-bit lane by `n` bits.
pub open spec fn rotl64(x: u64, n: u64) -> u64
    recommends
        n < 64,
{
    if n == 0 {
        x
    } else {
        (x << n) | (x >> (64 - n) as u64)
    }
}

/// Executable left rotation, exact against [`rotl64`].
pub fn rotate_lane(x: u64, n: u64) -> (r: u64)
    requires
        n < 64,
    ensures
        r == rotl64(x, n),
{
    if n == 0 {
        x
    } else {
        (x << n) | (x >> (64 - n))
    }
}

/// Parity of the five lanes of column `x`.
pub open spec fn column_parity(s: Seq<u64>, x: int) -> u64
    recommends
        s.len() == 25,
        0 <= x < 5,
{
    s[x] ^ s[x + 5] ^ s[x + 10] ^ s[x + 15] ^ s[x + 20]
}

/// The value theta XORs into every lane of column `x`: the parity of the
/// column to its left, XOR the parity of the column to its right rotated by
/// one bit.
pub open spec fn theta_d(s: Seq<u64>, x: int) -> u64
    recommends
        s.len() == 25,
        0 <= x < 5,
{
    column_parity(s, (x + 4) % 5) ^ rotl64(column_parity(s, (x + 1) % 5), 1)
}

/// Theta: XOR `theta_d` of its column into every lane.
pub open spec fn theta(s: Seq<u64>) -> Seq<u64>
    recommends
        s.len() == 25,
{
    Seq::new(25, |i: int| s[i] ^ theta_d(s, i % 5))
}

/// The fixed rho rotation offset of the lane at index `i` (`i = x + 5y`).
pub open spec fn rho_offset(i: int) -> u64
    recommends
        0 <= i < 25,
{
    seq![
        0u64, 1, 62, 28, 27, 36, 44, 6, 55, 20, 3, 10, 43, 25, 39, 41, 45, 15, 21, 8, 18, 2, 61,
        56, 14,
    ][i]
}

/// Rho: rotate each lane left by its fixed offset.
pub open spec fn rho(s: Seq<u64>) -> Seq<u64>
    recommends
        s.len() == 25,
{
    Seq::new(25, |i: int| rotl64(s[i], rho_offset(i)))
}

/// The lane that pi moves to index `i`: with `i = x + 5y`, the source is at
/// coordinates `(x + 3y mod 5, x)`.
pub open spec fn pi_source(i: int) -> int
    recommends
        0 <= i < 25,
{
    (i % 5 + 3 * (i / 5)) % 5 + 5 * (i % 5)
}

/// Pi: permute the lane positions.
pub open spec fn pi(s: Seq<u64>) -> Seq<u64>
    recommends
        s.len() == 25,
{
    Seq::new(25, |i: int| s[pi_source(i)])
}

/// Chi: within each row of five, each lane becomes
/// `lane ^ (!next_lane & next_next_lane)`, indices wrapping in the row.
pub open spec fn chi(s: Seq<u64>) -> Seq<u64>
    recommends
        s.len() == 25,
{
    Seq::new(
        25,
        |i: int| s[i] ^ (!s[5 * (i / 5) + (i % 5 + 1) % 5] & s[5 * (i / 5) + (i % 5 + 2) % 5]),
    )
}

/// The 24 fixed round constants of Keccak-f[1600].
pub open spec fn round_constant(r: int) -> u64
    recommends
        0 <= r < 24,
{
    seq![
        0x0000000000000001u64,
        0x0000000000008082,
        0x800000000000808a,
        0x8000000080008000,
        0x000000000000808b,
        0x0000000080000001,
        0x8000000080008081,
        0x8000000000008009,
        0x000000000000008a,
        0x0000000000000088,
        0x0000000080008009,
        0x000000008000000a,
        0x000000008000808b,
        0x800000000000008b,
        0x8000000000008089,
        0x8000000000008003,
        0x8000000000008002,
        0x8000000000000080,
        0x000000000000800a,
        0x800000008000000a,
        0x8000000080008081,
        0x8000000000008080,
        0x0000000080000001,
        0x8000000080008008,
    ][r]
}

/// Iota: XOR the round constant into lane (0,0).
pub open spec fn iota(s: Seq<u64>, rc: u64) -> Seq<u64>
    recommends
        s.len() == 25,
{
    s.update(0, s[0] ^ rc)
}

/// One full round: theta, rho, pi, chi, iota, in that order.
pub open spec fn keccak_round(s: Seq<u64>, r: int) -> Seq<u64>
    recommends
        s.len() == 25,
        0 <= r < 24,
{
    iota(chi(pi(rho(theta(s)))), round_constant(r))
}

/// The first `n` rounds applied to `s`.
pub open spec fn keccak_rounds(s: Seq<u64>, n: int) -> Seq<u64>
    recommends
        s.len() == 25,
        0 <= n <= 24,
    decreases n,
{
    if n <= 0 {
        s
    } else {
        keccak_round(keccak_rounds(s, n - 1), n - 1)
    }
}

/// The whole permutation: all 24 rounds.
pub open spec fn keccak_f(s: Seq<u64>) -> Seq<u64>
    recommends
        s.len() == 25,
{
    keccak_rounds(s, 24)
}

fn theta_step(s: &Vec<u64>) -> (out: Vec<u64>)
    requires
        s@.len() == 25,
    ensures
        out@ == theta(s@),
{
    let mut c: Vec<u64> = Vec::new();
    let mut x: usize = 0;
    while x < 5
        invariant
            s@.len() == 25,
            x <= 5,
            c@.len() == x,
            forall|j: int| 0 <= j < x ==> c@[j] == column_parity(s@, j),
        decreases 5 - x,
    {
        c.push(s[x] ^ s[x + 5] ^ s[x + 10] ^ s[x + 15] ^ s[x + 20]);
        x += 1;
    }
    let mut d: Vec<u64> = Vec::new();
    let mut x: usize = 0;
    while x < 5
        invariant
            s@.len() == 25,
            c@.len() == 5,
            forall|j: int| 0 <= j < 5 ==> c@[j] == column_parity(s@, j),
            x <= 5,
            d@.len() == x,
            forall|j: int| 0 <= j < x ==> d@[j] == theta_d(s@, j),
        decreases 5 - x,
    {
        d.push(c[(x + 4) % 5] ^ rotate_lane(c[(x + 1) % 5], 1));
        x += 1;
    }
    let mut out: Vec<u64> = Vec::new();
    let mut i: usize = 0;
    while i < 25
        invariant
            s@.len() == 25,
            d@.len() == 5,
            forall|j: int| 0 <= j < 5 ==> d@[j] == theta_d(s@, j),
            i <= 25,
            out@.len() == i,
            forall|j: int| 0 <= j < i ==> out@[j] == theta(s@)[j],
        decreases 25 - i,
    {
        out.push(s[i] ^ d[i % 5]);
        i += 1;
    }
    proof {
        assert(out@ =~= theta(s@));
    }
    out
}

/// Executable table of the rho offsets, exact against [`rho_offset`].
fn rho_offset_of(i: usize) -> (r: u64)
    requires
        i < 25,
    ensures
        r == rho_offset(i as int),
        r < 64,
{
    let offs: [u64; 25] = [
        0, 1, 62, 28, 27, 36, 44, 6, 55, 20, 3, 10, 43, 25, 39, 41, 45, 15, 21, 8, 18, 2, 61, 56,
        14,
    ];
    offs[i]
}

fn rho_step(s: &Vec<u64>) -> (out: Vec<u64>)
    requires
        s@.len() == 25,
    ensures
        out@ == rho(s@),
{
    let mut out: Vec<u64> = Vec::new();
    let mut i: usize = 0;
    while i < 25
        invariant
            s@.len() == 25,
            i <= 25,
            out@.len() == i,
            forall|j: int| 0 <= j < i ==> out@[j] == rho(s@)[j],
        decreases 25 - i,
    {
        out.push(rotate_lane(s[i], rho_offset_of(i)));
        i += 1;
    }
    proof {
        assert(out@ =~= rho(s@));
    }
    out
}

fn pi_step(s: &Vec<u64>) -> (out: Vec<u64>)
    requires
        s@.len() == 25,
    ensures
        out@ == pi(s@),
{
    let mut out: Vec<u64> = Vec::new();
    let mut i: usize = 0;
    while i < 25
        invariant
            s@.len() == 25,
            i <= 25,
            out@.len() == i,
            forall|j: int| 0 <= j < i ==> out@[j] == pi(s@)[j],
        decreases 25 - i,
    {
        let src = (i % 5 + 3 * (i / 5)) % 5 + 5 * (i % 5);
        assert(src == pi_source(i as int));
        out.push(s[src]);
        i += 1;
    }
    proof {
        assert(out@ =~= pi(s@));
    }
    out
}

fn chi_step(s: &Vec<u64>) -> (out: Vec<u64>)
    requires
        s@.len() == 25,
    ensures
        out@ == chi(s@),
{
    let mut out: Vec<u64> = Vec::new();
    let mut i: usize = 0;
    while i < 25
        invariant
            s@.len() == 25,
            i <= 25,
            out@.len() == i,
            forall|j: int| 0 <= j < i ==> out@[j] == chi(s@)[j],
        decreases 25 - i,
    {
        let row = 5 * (i / 5);
        out.push(s[i] ^ (!s[row + (i % 5 + 1) % 5] & s[row + (i % 5 + 2) % 5]));
        i += 1;
    }
    proof {
        assert(out@ =~= chi(s@));
    }
    out
}

/// Executable table of the round constants, exact against [`round_constant`].
fn round_constant_of(r: usize) -> (rc: u64)
    requires
        r < 24,
    ensures
        rc == round_constant(r as int),
{
    let rcs: [u64; 24] = [
        0x0000000000000001,
        0x0000000000008082,
        0x800000000000808a,
        0x8000000080008000,
        0x000000000000808b,
        0x0000000080000001,
        0x8000000080008081,
        0x8000000000008009,
        0x000000000000008a,
        0x0000000000000088,
        0x0000000080008009,
        0x000000008000000a,
        0x000000008000808b,
        0x800000000000008b,
        0x8000000000008089,
        0x8000000000008003,
        0x8000000000008002,
        0x8000000000000080,
        0x000000000000800a,
        0x800000008000000a,
        0x8000000080008081,
        0x8000000000008080,
        0x0000000080000001,
        0x8000000080008008,
    ];
    rcs[r]
}

fn round_step(s: &Vec<u64>, r: usize) -> (out: Vec<u64>)
    requires
        s@.len() == 25,
        r < 24,
    ensures
        out@ == keccak_round(s@, r as int),
{
    let t = theta_step(s);
    let t = rho_step(&t);
    let t = pi_step(&t);
    let mut t = chi_step(&t);
    let lane0 = t[0];
    t.set(0, lane0 ^ round_constant_of(r));
    t
}

/// Applies the Keccak-f[1600] permutation to the 25-lane state in place.
pub fn f1600(a: &mut Vec<u64>)
    requires
        old(a)@.len() == 25,
    ensures
        final(a)@ == keccak_f(old(a)@),
        final(a)@.len() == 25,
{
    let ghost orig = a@;
    let mut r: usize = 0;
    while r < 24
        invariant
            r <= 24,
            a@.len() == 25,
            a@ == keccak_rounds(orig, r as int),
        decreases 24 - r,
    {
        let next = round_step(a, r);
        *a = next;
        r += 1;
    }
}

} // verus!
