//! The command line that carries a turn's beacons.

use vstd::prelude::*;
use crate::allocate::Beacon;

verus! {

/// The decimal digits of `n`, most significant first, as ASCII bytes.
pub open spec fn decimal(n: nat) -> Seq<u8>
    decreases n,
{
    if n < 10 {
        seq![(48 + n) as u8]
    } else {
        decimal(n / 10).push((48 + n % 10) as u8)
    }
}

/// The word that starts a beacon directive, with the space after it.
pub open spec fn beacon_word() -> Seq<u8> {
    seq![66u8, 69u8, 65u8, 67u8, 79u8, 78u8, 32u8]
}

/// One directive: the word, the cell index, a space, the strength.
pub open spec fn directive(beacon: Beacon) -> Seq<u8> {
    beacon_word() + decimal(beacon.index as nat) + seq![32u8] + decimal(beacon.strength as nat)
}

/// The directives of `beacons` in order, with a semicolon between each two.
pub open spec fn command_text(beacons: Seq<Beacon>) -> Seq<u8>
    decreases beacons.len(),
{
    if beacons.len() == 0 {
        Seq::empty()
    } else if beacons.len() == 1 {
        directive(beacons[0])
    } else {
        command_text(beacons.drop_last()) + seq![59u8] + directive(beacons.last())
    }
}

/// Appends the decimal digits of `n` to `out`.
pub fn push_decimal(out: &mut Vec<u8>, n: usize)
    ensures
        final(out)@ == old(out)@ + decimal(n as nat),
    decreases n,
{
    if n >= 10 {
        push_decimal(out, n / 10);
    }
    let digit: u8 = (n % 10) as u8;
    out.push(48u8 + digit);
}

/// Appends one beacon directive to `out`.
pub fn push_directive(out: &mut Vec<u8>, beacon: &Beacon)
    ensures
        final(out)@ == old(out)@ + directive(*beacon),
{
    out.push(66u8);
    out.push(69u8);
    out.push(65u8);
    out.push(67u8);
    out.push(79u8);
    out.push(78u8);
    out.push(32u8);
    push_decimal(out, beacon.index);
    out.push(32u8);
    push_decimal(out, beacon.strength);
}

/// Writes the turn's command line, without a line end: one directive per
/// beacon, joined by semicolons. No beacons give an empty line.
pub fn render_commands(beacons: &[Beacon]) -> (line: Vec<u8>)
    ensures
        line@ == command_text(beacons@),
{
    let mut line: Vec<u8> = Vec::new();
    let mut k: usize = 0;
    while k < beacons.len()
        invariant
            k <= beacons@.len(),
            line@ == command_text(beacons@.take(k as int)),
        decreases beacons@.len() - k,
    {
        if k > 0 {
            line.push(59u8);
        }
        push_directive(&mut line, &beacons[k]);
        proof {
            assert(beacons@.take(k + 1).drop_last() =~= beacons@.take(k as int));
        }
        k += 1;
    }
    proof {
        assert(beacons@.take(k as int) =~= beacons@);
    }
    line
}

} // verus!
