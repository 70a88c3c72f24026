//! The pseudorandom stream that seeds and culls the grid: `randomize`'s
//! PCG32 generator, started from two seed words, and the reading of those
//! words out of raw entropy.

use vstd::prelude::*;
use vstd::slice::slice_subrange;
use byteorder::{ByteOrder, NativeEndian};
use randomize::PCG32;

verus! {

/// What one step of a PCG32 generator with state `state` and increment
/// `inc` gives: its 32-bit output and its next state.
pub uninterp spec fn pcg32_next_of(state: u64, inc: u64) -> (u32, u64);

/// Relies on `randomize`'s `From<(u64, u64)> for PCG32` (the words become
/// state and increment, as they stand), `PCG32::next_u32`, which depends on
/// those two words alone and leaves the increment as it is, and
/// `From<PCG32> for (u64, u64)`, which gives them back.
#[verifier::external_body]
fn pcg32_step(g: (u64, u64)) -> (r: (u32, (u64, u64)))
    ensures
        r == (pcg32_next_of(g.0, g.1).0, (pcg32_next_of(g.0, g.1).1, g.1)),
{
    let mut p = PCG32::from(g);
    let out = p.next_u32();
    (out, p.into())
}

/// State and increment of the stream started at `seed`, after `k` draws.
pub open spec fn stream_state(seed: (u64, u64), k: nat) -> (u64, u64)
    decreases k,
{
    if k == 0 {
        seed
    } else {
        let s = stream_state(seed, (k - 1) as nat);
        (pcg32_next_of(s.0, s.1).1, s.1)
    }
}

/// Draw number `k` (from 0) of the stream started at `seed`.
pub open spec fn stream_draw(seed: (u64, u64), k: nat) -> u32 {
    let s = stream_state(seed, k);
    pcg32_next_of(s.0, s.1).0
}

/// The first `n` draws of the stream started at `seed`.
pub open spec fn stream_prefix(seed: (u64, u64), n: nat) -> Seq<u32> {
    Seq::new(n, |k: int| stream_draw(seed, k as nat))
}

/// The first `n` draws of the stream started at `seed`, in order.
pub fn stream_draws(seed: (u64, u64), n: usize) -> (r: Vec<u32>)
    ensures
        r@ == stream_prefix(seed, n as nat),
{
    let mut out: Vec<u32> = Vec::with_capacity(n);
    let mut g: (u64, u64) = seed;
    let mut k: usize = 0;
    while k < n
        invariant
            k <= n,
            g == stream_state(seed, k as nat),
            out@ == stream_prefix(seed, k as nat),
        decreases n - k,
    {
        let (u, next) = pcg32_step(g);
        out.push(u);
        g = next;
        k += 1;
        assert(out@ =~= stream_prefix(seed, k as nat));
    }
    out
}

/// The word whose bytes, least significant first, are `b[0..8]`.
pub open spec fn le_u64(b: Seq<u8>) -> int {
    b[0] + 0x100 * b[1] + 0x1_0000 * b[2] + 0x100_0000 * b[3] + 0x1_0000_0000 * b[4]
        + 0x100_0000_0000 * b[5] + 0x1_0000_0000_0000 * b[6] + 0x100_0000_0000_0000 * b[7]
}

/// The word whose bytes, most significant first, are `b[0..8]`.
pub open spec fn be_u64(b: Seq<u8>) -> int {
    b[7] + 0x100 * b[6] + 0x1_0000 * b[5] + 0x100_0000 * b[4] + 0x1_0000_0000 * b[3]
        + 0x100_0000_0000 * b[2] + 0x1_0000_0000_0000 * b[1] + 0x100_0000_0000_0000 * b[0]
}

/// Relies on `byteorder::NativeEndian::read_u64`: the first eight bytes of
/// `buf` read as one word in the machine's byte order, which is little- or
/// big-endian. It panics on fewer than eight bytes.
#[verifier::external_body]
fn read_native_u64(buf: &[u8]) -> (r: u64)
    requires
        buf@.len() >= 8,
    ensures
        r as int == le_u64(buf@) || r as int == be_u64(buf@),
{
    NativeEndian::read_u64(buf)
}

/// The two seed words held in sixteen bytes of entropy: the first eight
/// bytes make the first word, the last eight the second, each read in the
/// machine's byte order.
pub fn seed_from_entropy(bytes: &[u8; 16]) -> (r: (u64, u64))
    ensures
        r.0 as int == le_u64(bytes@.subrange(0, 8)) || r.0 as int == be_u64(bytes@.subrange(0, 8)),
        r.1 as int == le_u64(bytes@.subrange(8, 16)) || r.1 as int == be_u64(bytes@.subrange(8, 16)),
{
    let all: &[u8] = bytes.as_slice();
    let first_half: &[u8] = slice_subrange(all, 0, 8);
    let second_half: &[u8] = slice_subrange(all, 8, 16);
    let first: u64 = read_native_u64(first_half);
    let second: u64 = read_native_u64(second_half);
    proof {
        assert(first_half@ =~= bytes@.subrange(0, 8));
        assert(second_half@ =~= bytes@.subrange(8, 16));
    }
    (first, second)
}

} // verus!
