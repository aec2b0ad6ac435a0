//! The constant tables of the format.
use vstd::prelude::*;

verus! {

/// Base copy length of length symbol `257 + i`.
pub open spec fn length_base(i: int) -> int {
    if i == 0 {
        3
    } else if i == 1 {
        4
    } else if i == 2 {
        5
    } else if i == 3 {
        6
    } else if i == 4 {
        7
    } else if i == 5 {
        8
    } else if i == 6 {
        9
    } else if i == 7 {
        10
    } else if i == 8 {
        11
    } else if i == 9 {
        13
    } else if i == 10 {
        15
    } else if i == 11 {
        17
    } else if i == 12 {
        19
    } else if i == 13 {
        23
    } else if i == 14 {
        27
    } else if i == 15 {
        31
    } else if i == 16 {
        35
    } else if i == 17 {
        43
    } else if i == 18 {
        51
    } else if i == 19 {
        59
    } else if i == 20 {
        67
    } else if i == 21 {
        83
    } else if i == 22 {
        99
    } else if i == 23 {
        115
    } else if i == 24 {
        131
    } else if i == 25 {
        163
    } else if i == 26 {
        195
    } else if i == 27 {
        227
    } else {
        258
    }
}

/// Base copy length of length symbol `257 + i`.
pub fn length_base_of(i: usize) -> (r: u16)
    requires
        i < 29,
    ensures
        r as int == length_base(i as int),
{
    match i {
        0 => 3,
        1 => 4,
        2 => 5,
        3 => 6,
        4 => 7,
        5 => 8,
        6 => 9,
        7 => 10,
        8 => 11,
        9 => 13,
        10 => 15,
        11 => 17,
        12 => 19,
        13 => 23,
        14 => 27,
        15 => 31,
        16 => 35,
        17 => 43,
        18 => 51,
        19 => 59,
        20 => 67,
        21 => 83,
        22 => 99,
        23 => 115,
        24 => 131,
        25 => 163,
        26 => 195,
        27 => 227,
        _ => 258,
    }
}

/// Extra bits that follow length symbol `257 + i`.
pub open spec fn length_extra(i: int) -> int {
    if i == 0 {
        0
    } else if i == 1 {
        0
    } else if i == 2 {
        0
    } else if i == 3 {
        0
    } else if i == 4 {
        0
    } else if i == 5 {
        0
    } else if i == 6 {
        0
    } else if i == 7 {
        0
    } else if i == 8 {
        1
    } else if i == 9 {
        1
    } else if i == 10 {
        1
    } else if i == 11 {
        1
    } else if i == 12 {
        2
    } else if i == 13 {
        2
    } else if i == 14 {
        2
    } else if i == 15 {
        2
    } else if i == 16 {
        3
    } else if i == 17 {
        3
    } else if i == 18 {
        3
    } else if i == 19 {
        3
    } else if i == 20 {
        4
    } else if i == 21 {
        4
    } else if i == 22 {
        4
    } else if i == 23 {
        4
    } else if i == 24 {
        5
    } else if i == 25 {
        5
    } else if i == 26 {
        5
    } else if i == 27 {
        5
    } else {
        0
    }
}

/// Extra bits that follow length symbol `257 + i`.
pub fn length_extra_of(i: usize) -> (r: u32)
    requires
        i < 29,
    ensures
        r as int == length_extra(i as int),
{
    match i {
        0 => 0,
        1 => 0,
        2 => 0,
        3 => 0,
        4 => 0,
        5 => 0,
        6 => 0,
        7 => 0,
        8 => 1,
        9 => 1,
        10 => 1,
        11 => 1,
        12 => 2,
        13 => 2,
        14 => 2,
        15 => 2,
        16 => 3,
        17 => 3,
        18 => 3,
        19 => 3,
        20 => 4,
        21 => 4,
        22 => 4,
        23 => 4,
        24 => 5,
        25 => 5,
        26 => 5,
        27 => 5,
        _ => 0,
    }
}

/// Base distance of distance symbol `i`.
pub open spec fn dist_base(i: int) -> int {
    if i == 0 {
        1
    } else if i == 1 {
        2
    } else if i == 2 {
        3
    } else if i == 3 {
        4
    } else if i == 4 {
        5
    } else if i == 5 {
        7
    } else if i == 6 {
        9
    } else if i == 7 {
        13
    } else if i == 8 {
        17
    } else if i == 9 {
        25
    } else if i == 10 {
        33
    } else if i == 11 {
        49
    } else if i == 12 {
        65
    } else if i == 13 {
        97
    } else if i == 14 {
        129
    } else if i == 15 {
        193
    } else if i == 16 {
        257
    } else if i == 17 {
        385
    } else if i == 18 {
        513
    } else if i == 19 {
        769
    } else if i == 20 {
        1025
    } else if i == 21 {
        1537
    } else if i == 22 {
        2049
    } else if i == 23 {
        3073
    } else if i == 24 {
        4097
    } else if i == 25 {
        6145
    } else if i == 26 {
        8193
    } else if i == 27 {
        12289
    } else if i == 28 {
        16385
    } else {
        24577
    }
}

/// Base distance of distance symbol `i`.
pub fn dist_base_of(i: usize) -> (r: u16)
    requires
        i < 30,
    ensures
        r as int == dist_base(i as int),
{
    match i {
        0 => 1,
        1 => 2,
        2 => 3,
        3 => 4,
        4 => 5,
        5 => 7,
        6 => 9,
        7 => 13,
        8 => 17,
        9 => 25,
        10 => 33,
        11 => 49,
        12 => 65,
        13 => 97,
        14 => 129,
        15 => 193,
        16 => 257,
        17 => 385,
        18 => 513,
        19 => 769,
        20 => 1025,
        21 => 1537,
        22 => 2049,
        23 => 3073,
        24 => 4097,
        25 => 6145,
        26 => 8193,
        27 => 12289,
        28 => 16385,
        _ => 24577,
    }
}

/// Extra bits that follow distance symbol `i`.
pub open spec fn dist_extra(i: int) -> int {
    if i == 0 {
        0
    } else if i == 1 {
        0
    } else if i == 2 {
        0
    } else if i == 3 {
        0
    } else if i == 4 {
        1
    } else if i == 5 {
        1
    } else if i == 6 {
        2
    } else if i == 7 {
        2
    } else if i == 8 {
        3
    } else if i == 9 {
        3
    } else if i == 10 {
        4
    } else if i == 11 {
        4
    } else if i == 12 {
        5
    } else if i == 13 {
        5
    } else if i == 14 {
        6
    } else if i == 15 {
        6
    } else if i == 16 {
        7
    } else if i == 17 {
        7
    } else if i == 18 {
        8
    } else if i == 19 {
        8
    } else if i == 20 {
        9
    } else if i == 21 {
        9
    } else if i == 22 {
        10
    } else if i == 23 {
        10
    } else if i == 24 {
        11
    } else if i == 25 {
        11
    } else if i == 26 {
        12
    } else if i == 27 {
        12
    } else if i == 28 {
        13
    } else {
        13
    }
}

/// Extra bits that follow distance symbol `i`.
pub fn dist_extra_of(i: usize) -> (r: u32)
    requires
        i < 30,
    ensures
        r as int == dist_extra(i as int),
{
    match i {
        0 => 0,
        1 => 0,
        2 => 0,
        3 => 0,
        4 => 1,
        5 => 1,
        6 => 2,
        7 => 2,
        8 => 3,
        9 => 3,
        10 => 4,
        11 => 4,
        12 => 5,
        13 => 5,
        14 => 6,
        15 => 6,
        16 => 7,
        17 => 7,
        18 => 8,
        19 => 8,
        20 => 9,
        21 => 9,
        22 => 10,
        23 => 10,
        24 => 11,
        25 => 11,
        26 => 12,
        27 => 12,
        28 => 13,
        _ => 13,
    }
}

/// Code-length symbol whose 3-bit length comes `i`-th in a dynamic block header.
pub open spec fn cl_order(i: int) -> int {
    if i == 0 {
        16
    } else if i == 1 {
        17
    } else if i == 2 {
        18
    } else if i == 3 {
        0
    } else if i == 4 {
        8
    } else if i == 5 {
        7
    } else if i == 6 {
        9
    } else if i == 7 {
        6
    } else if i == 8 {
        10
    } else if i == 9 {
        5
    } else if i == 10 {
        11
    } else if i == 11 {
        4
    } else if i == 12 {
        12
    } else if i == 13 {
        3
    } else if i == 14 {
        13
    } else if i == 15 {
        2
    } else if i == 16 {
        14
    } else if i == 17 {
        1
    } else {
        15
    }
}

/// Code-length symbol whose 3-bit length comes `i`-th in a dynamic block header.
pub fn cl_order_of(i: usize) -> (r: usize)
    requires
        i < 19,
    ensures
        r as int == cl_order(i as int),
{
    match i {
        0 => 16,
        1 => 17,
        2 => 18,
        3 => 0,
        4 => 8,
        5 => 7,
        6 => 9,
        7 => 6,
        8 => 10,
        9 => 5,
        10 => 11,
        11 => 4,
        12 => 12,
        13 => 3,
        14 => 13,
        15 => 2,
        16 => 14,
        17 => 1,
        _ => 15,
    }
}

} // verus!
