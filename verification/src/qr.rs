//! QR symbol geometry.
//!
//! The printer generates the symbol from `GS ( k`; this module only computes how wide the
//! finished symbol will be, so that an overflowing template is rejected instead of being
//! printed clipped. Error correction is fixed at level M and capacities are for byte mode,
//! the most expensive encoding, so the computed size is an upper bound.

use vstd::prelude::*;

verus! {

/// Module size the printer uses when a template does not say otherwise.
pub const DEFAULT_MODULE: u8 = 6;

/// `GS ( k` accepts module sizes 1..=16.
pub const MIN_MODULE: u8 = 1;

/// `GS ( k` accepts module sizes 1..=16.
pub const MAX_MODULE: u8 = 16;

/// Quiet zone per side, in modules, counted against the paper width.
pub const QUIET_ZONE_MODULES: u16 = 4;

/// The largest QR version, and therefore the capacity ceiling.
pub const MAX_VERSION: u8 = 40;

/// Byte-mode capacity in bytes at error-correction level M of QR version `v` (1..=40).
pub open spec fn capacity(v: int) -> int {
    if v == 1 { 14 } else if v == 2 { 26 } else if v == 3 { 42 } else if v == 4 { 62 }
    else if v == 5 { 84 } else if v == 6 { 106 } else if v == 7 { 122 } else if v == 8 { 152 }
    else if v == 9 { 180 } else if v == 10 { 213 } else if v == 11 { 251 } else if v == 12 { 287 }
    else if v == 13 { 331 } else if v == 14 { 362 } else if v == 15 { 412 } else if v == 16 { 450 }
    else if v == 17 { 504 } else if v == 18 { 560 } else if v == 19 { 624 } else if v == 20 { 666 }
    else if v == 21 { 711 } else if v == 22 { 779 } else if v == 23 { 857 } else if v == 24 { 911 }
    else if v == 25 { 997 } else if v == 26 { 1059 } else if v == 27 { 1125 } else if v == 28 { 1190 }
    else if v == 29 { 1264 } else if v == 30 { 1370 } else if v == 31 { 1452 } else if v == 32 { 1538 }
    else if v == 33 { 1628 } else if v == 34 { 1722 } else if v == 35 { 1809 } else if v == 36 { 1911 }
    else if v == 37 { 2013 } else if v == 38 { 2099 } else if v == 39 { 2213 } else { 2331 }
}

/// Capacities grow strictly with the version.
pub proof fn lemma_capacity_increasing(u: int, v: int)
    requires
        1 <= u < v <= 40,
    ensures
        capacity(u) < capacity(v),
    decreases v - u,
{
    if v - u > 1 {
        lemma_capacity_increasing(u, v - 1);
    }
}

/// The smallest version from `v` up that holds `n` bytes, if any.
pub open spec fn first_version_from(n: int, v: int) -> Option<u8>
    decreases 41 - v,
{
    if v > 40 || v < 1 {
        None
    } else if capacity(v) >= n {
        Some(v as u8)
    } else {
        first_version_from(n, v + 1)
    }
}

/// The smallest version that holds `n` bytes, or `None` past version 40.
pub open spec fn spec_version_for(n: int) -> Option<u8> {
    first_version_from(n, 1)
}

/// Side length of a version's symbol in modules.
pub open spec fn spec_modules_for_version(v: int) -> int {
    17 + 4 * v
}

/// Printed footprint in dots of a `byte_len`-byte payload at `module` dots per module,
/// quiet zones included, saturating at `u16::MAX`; `None` past the version-40 ceiling.
pub open spec fn spec_footprint_dots(byte_len: int, module: u8) -> Option<u16> {
    match spec_version_for(byte_len) {
        Some(v) => {
            let dots = (spec_modules_for_version(v as int) + 2 * QUIET_ZONE_MODULES) * module;
            Some(if dots > u16::MAX { u16::MAX } else { dots as u16 })
        },
        None => None,
    }
}

proof fn lemma_first_version_from(n: int, v: int)
    requires
        1 <= v <= 41,
        forall|u: int| 1 <= u < v ==> capacity(u) < n,
    ensures
        match first_version_from(n, v) {
            Some(r) => 1 <= r <= 40 && capacity(r as int) >= n && forall|u: int|
                1 <= u < r ==> capacity(u) < n,
            None => n > 2331,
        },
    decreases 41 - v,
{
    if v <= 40 && capacity(v) < n {
        lemma_first_version_from(n, v + 1);
    }
    if v == 41 {
        assert(capacity(40) < n);
    }
}

fn capacity_of(v: u8) -> (r: u16)
    requires
        1 <= v <= 40,
    ensures
        r as int == capacity(v as int),
{
    match v {
        1 => 14, 2 => 26, 3 => 42, 4 => 62, 5 => 84, 6 => 106, 7 => 122, 8 => 152,
        9 => 180, 10 => 213, 11 => 251, 12 => 287, 13 => 331, 14 => 362, 15 => 412,
        16 => 450, 17 => 504, 18 => 560, 19 => 624, 20 => 666, 21 => 711, 22 => 779,
        23 => 857, 24 => 911, 25 => 997, 26 => 1059, 27 => 1125, 28 => 1190, 29 => 1264,
        30 => 1370, 31 => 1452, 32 => 1538, 33 => 1628, 34 => 1722, 35 => 1809, 36 => 1911,
        37 => 2013, 38 => 2099, 39 => 2213, _ => 2331,
    }
}

/// The smallest version that holds `byte_len` bytes, or `None` past version 40.
pub fn version_for(byte_len: usize) -> (r: Option<u8>)
    ensures
        r == spec_version_for(byte_len as int),
        r matches Some(v) ==> 1 <= v <= 40 && capacity(v as int) >= byte_len && forall|u: int|
            1 <= u < v ==> capacity(u) < byte_len,
        r is None <==> byte_len > 2331,
{
    proof {
        lemma_first_version_from(byte_len as int, 1);
    }
    let mut v: u8 = 1;
    while v <= MAX_VERSION
        invariant
            1 <= v <= 41,
            spec_version_for(byte_len as int) == first_version_from(byte_len as int, v as int),
            forall|u: int| 1 <= u < v ==> capacity(u) < byte_len,
        decreases 41 - v,
    {
        if capacity_of(v) as usize >= byte_len {
            assert(first_version_from(byte_len as int, v as int) == Some(v));
            return Some(v);
        }
        v = v + 1;
    }
    None
}

/// Side length of a version's symbol, in modules. Version 1 is 21, growing by 4.
pub fn modules_for_version(version: u8) -> (r: u16)
    ensures
        r as int == spec_modules_for_version(version as int),
{
    17 + 4 * (version as u16)
}

/// Printed footprint of a symbol, in dots, including both quiet zones.
///
/// `None` when the payload exceeds what a QR code can carry at all.
pub fn footprint_dots(byte_len: usize, module: u8) -> (r: Option<u16>)
    ensures
        r == spec_footprint_dots(byte_len as int, module),
{
    let version = match version_for(byte_len) {
        Some(v) => v,
        None => return None,
    };
    let modules = modules_for_version(version) + 2 * QUIET_ZONE_MODULES;
    assert(modules as u32 * module as u32 <= 1045 * 255) by (nonlinear_arith)
        requires modules <= 1045, module <= 255;
    let dots: u32 = modules as u32 * module as u32;
    Some(if dots > u16::MAX as u32 { u16::MAX } else { dots as u16 })
}

/// Capacity ceiling, for error messages that need to say what the limit was.
pub fn max_bytes() -> (r: u16)
    ensures
        r as int == capacity(40),
        r == 2331,
{
    capacity_of(MAX_VERSION)
}

/// A larger payload never needs a smaller symbol: the footprint grows with the payload
/// (at a fixed module size) and with the module size (at a fixed payload).
pub proof fn law_footprint_is_monotone(n1: int, n2: int, m1: u8, m2: u8)
    requires
        0 <= n1 <= n2,
        m1 <= m2,
        spec_version_for(n2) is Some,
    ensures
        spec_footprint_dots(n1, m1) is Some,
        spec_footprint_dots(n1, m1)->0 <= spec_footprint_dots(n2, m2)->0,
{
    lemma_first_version_from(n1, 1);
    lemma_first_version_from(n2, 1);
    let v1 = spec_version_for(n1)->0 as int;
    let v2 = spec_version_for(n2)->0 as int;
    if v1 > v2 {
        assert(capacity(v2) < n1);
    }
    assert(v1 <= v2);
    let a = spec_modules_for_version(v1) + 8;
    let b = spec_modules_for_version(v2) + 8;
    assert(a * (m1 as int) <= b * (m2 as int)) by (nonlinear_arith)
        requires 0 <= a <= b, 0 <= m1 <= m2;
}


/// A payload gets the smallest symbol that holds it: the version chosen for `n` bytes
/// holds them and no smaller version does, and there is none exactly when `n` is past the
/// 2331 bytes of version 40. The symbol then covers `17 + 4v` modules a side plus a quiet
/// zone of 4 on each side, each module `module` dots wide.
pub proof fn law_smallest_symbol(n: int, module: u8)
    ensures
        spec_version_for(n) is None <==> n > 2331,
        spec_version_for(n) matches Some(v) ==> 1 <= v <= 40 && capacity(v as int) >= n && forall|u: int|
            1 <= u < v ==> capacity(u) < n,
        spec_version_for(n) matches Some(v) ==> spec_footprint_dots(n, module) matches Some(d) && d as int == if (
        17 + 4 * v + 8) * module > 65535 {
            65535
        } else {
            (17 + 4 * v + 8) * module
        },
{
    lemma_first_version_from(n, 1);
    if n <= 2331 {
        if spec_version_for(n) is None {
            assert(capacity(40) >= n);
        }
    }
}
} // verus!
