//! The protocol's parameters.

use vstd::prelude::*;

verus! {

/// How often an item is passed on, per unit of the logarithm of the cluster
/// size.
pub const GOSSIP_RATE: usize = 3;

/// The smallest number of known peers with which a node probes.
pub const MINIMUM_MEMBERS: usize = 2;

/// The protocol period, in milliseconds.
pub const PROTOCOL_PERIOD: u64 = 1000;

/// The time allowed for a round trip, in milliseconds.
pub const ROUND_TRIP_TIME: u64 = 333;

/// The natural logarithm of `m`, rounded up: the least `k` with `m <= e^k`.
/// Each bound below is a power of `e` rounded down. Stated for `m` from 1 to
/// 2^64.
pub open spec fn ceil_ln(m: nat) -> nat {
    if m <= 1 {
        0
    } else if m <= 2 {
        1
    } else if m <= 7 {
        2
    } else if m <= 20 {
        3
    } else if m <= 54 {
        4
    } else if m <= 148 {
        5
    } else if m <= 403 {
        6
    } else if m <= 1096 {
        7
    } else if m <= 2980 {
        8
    } else if m <= 8103 {
        9
    } else if m <= 22026 {
        10
    } else if m <= 59874 {
        11
    } else if m <= 162754 {
        12
    } else if m <= 442413 {
        13
    } else if m <= 1202604 {
        14
    } else if m <= 3269017 {
        15
    } else if m <= 8886110 {
        16
    } else if m <= 24154952 {
        17
    } else if m <= 65659969 {
        18
    } else if m <= 178482300 {
        19
    } else if m <= 485165195 {
        20
    } else if m <= 1318815734 {
        21
    } else if m <= 3584912846 {
        22
    } else if m <= 9744803446 {
        23
    } else if m <= 26489122129 {
        24
    } else if m <= 72004899337 {
        25
    } else if m <= 195729609428 {
        26
    } else if m <= 532048240601 {
        27
    } else if m <= 1446257064291 {
        28
    } else if m <= 3931334297144 {
        29
    } else if m <= 10686474581524 {
        30
    } else if m <= 29048849665247 {
        31
    } else if m <= 78962960182680 {
        32
    } else if m <= 214643579785916 {
        33
    } else if m <= 583461742527454 {
        34
    } else if m <= 1586013452313430 {
        35
    } else if m <= 4311231547115195 {
        36
    } else if m <= 11719142372802611 {
        37
    } else if m <= 31855931757113756 {
        38
    } else if m <= 86593400423993746 {
        39
    } else if m <= 235385266837019985 {
        40
    } else if m <= 639843493530054949 {
        41
    } else if m <= 1739274941520501047 {
        42
    } else if m <= 4727839468229346561 {
        43
    } else if m <= 12851600114359308275 {
        44
    } else {
        45
    }
}

/// How many times an item is passed on after its first emission, in a cluster
/// with `members` known peers.
pub open spec fn gossip_budget(members: nat) -> nat {
    GOSSIP_RATE as nat * ceil_ln(members + 1)
}

/// The natural logarithm of `n + 1`, rounded up.
pub fn ceil_ln_succ(n: u64) -> (k: usize)
    ensures
        k == ceil_ln(n as nat + 1),
        k <= 45,
{
    if n < 1 {
        0
    } else if n < 2 {
        1
    } else if n < 7 {
        2
    } else if n < 20 {
        3
    } else if n < 54 {
        4
    } else if n < 148 {
        5
    } else if n < 403 {
        6
    } else if n < 1096 {
        7
    } else if n < 2980 {
        8
    } else if n < 8103 {
        9
    } else if n < 22026 {
        10
    } else if n < 59874 {
        11
    } else if n < 162754 {
        12
    } else if n < 442413 {
        13
    } else if n < 1202604 {
        14
    } else if n < 3269017 {
        15
    } else if n < 8886110 {
        16
    } else if n < 24154952 {
        17
    } else if n < 65659969 {
        18
    } else if n < 178482300 {
        19
    } else if n < 485165195 {
        20
    } else if n < 1318815734 {
        21
    } else if n < 3584912846 {
        22
    } else if n < 9744803446 {
        23
    } else if n < 26489122129 {
        24
    } else if n < 72004899337 {
        25
    } else if n < 195729609428 {
        26
    } else if n < 532048240601 {
        27
    } else if n < 1446257064291 {
        28
    } else if n < 3931334297144 {
        29
    } else if n < 10686474581524 {
        30
    } else if n < 29048849665247 {
        31
    } else if n < 78962960182680 {
        32
    } else if n < 214643579785916 {
        33
    } else if n < 583461742527454 {
        34
    } else if n < 1586013452313430 {
        35
    } else if n < 4311231547115195 {
        36
    } else if n < 11719142372802611 {
        37
    } else if n < 31855931757113756 {
        38
    } else if n < 86593400423993746 {
        39
    } else if n < 235385266837019985 {
        40
    } else if n < 639843493530054949 {
        41
    } else if n < 1739274941520501047 {
        42
    } else if n < 4727839468229346561 {
        43
    } else if n < 12851600114359308275 {
        44
    } else {
        45
    }
}

/// The budget for a cluster with `members` known peers.
pub fn budget_for(members: usize) -> (budget: usize)
    ensures
        budget == gossip_budget(members as nat),
        budget <= 135,
{
    GOSSIP_RATE * ceil_ln_succ(members as u64)
}

} // verus!
