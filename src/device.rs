//! The device side of the exchange: answering commands, and turning
//! channel readings into pressed buttons.

use vstd::prelude::*;
use crate::message::{Command, Response};
use crate::types::AdcValues;

verus! {

/// Answers `cmd`. `sampled` holds the current channel values and `thresh`
/// the press thresholds, which `SetThresh4` replaces.
pub fn respond(cmd: &Command, sampled: [u16; 4], thresh: &mut [u16; 4]) -> (r: Response)
    ensures
        match *cmd {
            Command::GetValues => r == Response::Values4(sampled) && *final(thresh) == *old(thresh),
            Command::GetThresh => r == Response::Values4(*old(thresh)) && *final(thresh) == *old(thresh),
            Command::SetThresh4(th) => r == Response::Ack && *final(thresh) == th,
        },
{
    match cmd {
        Command::GetValues => Response::Values4(sampled),
        Command::GetThresh => Response::Values4(*thresh),
        Command::SetThresh4(th) => {
            *thresh = *th;
            Response::Ack
        },
    }
}

/// A channel at or above this reading counts as a pressed button.
pub const BUTTON_THRESHOLD: u16 = 512;

/// `2` to the power `n`.
pub open spec fn two_to(n: nat) -> nat
    decreases n,
{
    if n == 0 {
        1
    } else {
        2 * two_to((n - 1) as nat)
    }
}

/// The button bits of `vals`: bit `i` is set exactly when channel `i` reads
/// at least `BUTTON_THRESHOLD`.
pub open spec fn pressed_bits(vals: Seq<u16>) -> nat
    decreases vals.len(),
{
    if vals.len() == 0 {
        0
    } else {
        (if vals[0] >= BUTTON_THRESHOLD {
            1nat
        } else {
            0nat
        }) + 2 * pressed_bits(vals.skip(1))
    }
}

proof fn lemma_pressed_bits_bound(vals: Seq<u16>)
    ensures
        pressed_bits(vals) < two_to(vals.len()),
    decreases vals.len(),
{
    if vals.len() > 0 {
        lemma_pressed_bits_bound(vals.skip(1));
    }
}

proof fn lemma_two_to_le_byte(n: nat)
    requires
        n <= 8,
    ensures
        two_to(n) <= 256,
    decreases 8 - n,
{
    if n < 8 {
        lemma_two_to_le_byte(n + 1);
    } else {
        assert(two_to(0) == 1);
        assert(two_to(1) == 2);
        assert(two_to(2) == 4);
        assert(two_to(3) == 8);
        assert(two_to(4) == 16);
        assert(two_to(5) == 32);
        assert(two_to(6) == 64);
        assert(two_to(7) == 128);
        assert(two_to(8) == 256);
    }
}

/// The buttons that a reading presses, one bit per channel, channel `0` in
/// the lowest bit.
pub fn button_bits<const N: usize>(vals: &AdcValues<N>) -> (r: u8)
    requires
        N <= 8,
    ensures
        r as nat == pressed_bits(vals.0@),
{
    let mut buttons: u8 = 0;
    let mut i: usize = N;
    assert(vals.0@.skip(N as int) =~= Seq::<u16>::empty());
    while i > 0
        invariant
            i <= N <= 8,
            vals.0@.len() == N,
            buttons as nat == pressed_bits(vals.0@.skip(i as int)),
        decreases i,
    {
        i -= 1;
        let ghost s = vals.0@.skip(i as int);
        proof {
            assert(s.skip(1) =~= vals.0@.skip(i + 1));
            lemma_pressed_bits_bound(s);
            lemma_two_to_le_byte(s.len());
        }
        let pressed: u8 = if vals.0[i] >= BUTTON_THRESHOLD {
            1
        } else {
            0
        };
        buttons = buttons * 2 + pressed;
    }
    assert(vals.0@.skip(0) =~= vals.0@);
    buttons
}

} // verus!
