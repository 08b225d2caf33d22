//! Operating system versions: packing, parsing and comparing.
//!
//! A version is packed into a `u32` as the loader's build-version command
//! has it: sixteen bits of major version, eight of minor, eight of patch.
//! Packed versions compare as versions do.

use vstd::prelude::*;
use vstd::slice::slice_subrange;

verus! {

/// The version of the operating system.
///
/// We use a packed u32 here to allow for fast comparisons.
pub type OSVersion = u32;

/// The packed version, as a number.
pub open spec fn packed(major: nat, minor: nat, patch: nat) -> nat {
    major * 0x1_0000 + minor * 0x100 + patch
}

/// Combine parts of a version into an [`OSVersion`].
pub fn pack_os_version(major: u16, minor: u8, patch: u8) -> (r: OSVersion)
    ensures
        r == packed(major as nat, minor as nat, patch as nat),
{
    let (major, minor, patch) = (major as u32, minor as u32, patch as u32);
    assert((major << 16) | (minor << 8) | patch == major * 0x1_0000 + minor * 0x100 + patch)
        by (bit_vector)
        requires major < 0x1_0000, minor < 0x100, patch < 0x100;
    (major << 16) | (minor << 8) | patch
}

/// Whether a version at least `major.minor.subminor` is given by the packed
/// version `current`: one if it is, zero if not. Of each part the bits that
/// fit its field count.
pub fn is_os_version_at_least(current: OSVersion, major: u32, minor: u32, subminor: u32) -> (r:
    i32)
    ensures
        r == (if packed((major % 0x1_0000) as nat, (minor % 0x100) as nat, (subminor % 0x100) as nat)
            <= current {
            1int
        } else {
            0int
        }),
{
    let version = pack_os_version(
        (major % 0x1_0000) as u16,
        (minor % 0x100) as u8,
        (subminor % 0x100) as u8,
    );
    if version <= current {
        1
    } else {
        0
    }
}

/// The length of `s` without its trailing zero bytes.
pub open spec fn trimmed_len(s: Seq<u8>) -> nat
    decreases s.len(),
{
    if s.len() > 0 && s.last() == 0 {
        trimmed_len(s.drop_last())
    } else {
        s.len()
    }
}

/// Cuts the trailing zero bytes off.
pub fn trim_trailing_nul(bytes: &[u8]) -> (r: &[u8])
    ensures
        r@ == bytes@.take(trimmed_len(bytes@) as int),
{
    let mut n = bytes.len();
    proof {
        assert(bytes@.take(n as int) == bytes@);
    }
    while n > 0 && bytes[n - 1] == 0
        invariant
            n <= bytes.len(),
            trimmed_len(bytes@) == trimmed_len(bytes@.take(n as int)),
        decreases n,
    {
        proof {
            assert(bytes@.take(n as int).drop_last() == bytes@.take(n - 1));
        }
        n -= 1;
    }
    proof {
        assert(bytes@.take(bytes.len() as int) == bytes@);
        let t = bytes@.take(n as int);
        assert(trimmed_len(t) == t.len());
    }
    slice_subrange(bytes, 0, n)
}

/// An ASCII decimal digit.
pub open spec fn is_digit(b: u8) -> bool {
    0x30 <= b <= 0x39
}

/// The number of decimal digits that `s` starts with.
pub open spec fn digit_run(s: Seq<u8>) -> nat
    decreases s.len(),
{
    if s.len() > 0 && is_digit(s[0]) {
        1 + digit_run(s.skip(1))
    } else {
        0
    }
}

/// The number that the decimal digits `s` spell.
pub open spec fn decimal(s: Seq<u8>) -> nat
    decreases s.len(),
{
    if s.len() == 0 {
        0
    } else {
        decimal(s.drop_last()) * 10 + (s.last() - 0x30) as nat
    }
}

/// The digits that `s` starts with stop at the first byte that is no digit.
pub proof fn lemma_digit_run(s: Seq<u8>, n: nat)
    requires
        n <= s.len(),
        forall|j: int| 0 <= j < n ==> is_digit(#[trigger] s[j]),
        n == s.len() || !is_digit(s[n as int]),
    ensures
        digit_run(s) == n,
    decreases n,
{
    if n > 0 {
        let t = s.skip(1);
        assert forall|j: int| 0 <= j < n - 1 implies is_digit(#[trigger] t[j]) by {
            assert(t[j] == s[j + 1]);
        }
        lemma_digit_run(t, (n - 1) as nat);
    }
}

/// The leading digits are digits, and what follows them is none.
pub proof fn lemma_run_digits(s: Seq<u8>)
    ensures
        digit_run(s) <= s.len(),
        forall|j: int| 0 <= j < digit_run(s) ==> is_digit(#[trigger] s[j]),
        digit_run(s) == s.len() || !is_digit(s[digit_run(s) as int]),
    decreases s.len(),
{
    if s.len() > 0 && is_digit(s[0]) {
        let t = s.skip(1);
        lemma_run_digits(t);
        assert forall|j: int| 0 <= j < digit_run(s) implies is_digit(#[trigger] s[j]) by {
            if j > 0 {
                assert(s[j] == t[j - 1]);
            }
        }
        if digit_run(s) < s.len() {
            assert(s[digit_run(s) as int] == t[digit_run(t) as int]);
        }
    }
}

/// A longer run of digits spells a number that is no smaller.
pub proof fn lemma_decimal_grows(s: Seq<u8>, i: nat, n: nat)
    requires
        i <= n <= s.len(),
        forall|j: int| 0 <= j < n ==> is_digit(#[trigger] s[j]),
    ensures
        decimal(s.take(i as int)) <= decimal(s.take(n as int)),
    decreases n - i,
{
    if i < n {
        lemma_decimal_grows(s, i + 1, n);
        let t = s.take((i + 1) as int);
        assert(t.drop_last() == s.take(i as int));
        assert(t.last() == s[i as int]);
    }
}

/// What parsing a number finds at the start of `s`: the number that the
/// leading digits spell and how many they are, if there is a digit and the
/// number fits `usize`.
pub open spec fn usize_at(s: Seq<u8>) -> Option<(nat, nat)> {
    let n = digit_run(s);
    if n == 0 || decimal(s.take(n as int)) > usize::MAX {
        None
    } else {
        Some((decimal(s.take(n as int)), n))
    }
}

/// Parses the decimal number at the start of `bytes`. Returns the number and
/// the rest, or `None` where `bytes` does not start with a digit or the
/// number does not fit.
pub fn try_parse_usize(bytes: &[u8]) -> (r: Option<(usize, &[u8])>)
    ensures
        match r {
            Some((v, rest)) => rest.len() <= bytes.len() && usize_at(bytes@) == Some(
                (v as nat, (bytes.len() - rest.len()) as nat),
            ) && rest@ == bytes@.skip(bytes.len() - rest.len()),
            None => usize_at(bytes@) is None,
        },
{
    if bytes.len() == 0 || !(0x30 <= bytes[0] && bytes[0] <= 0x39) {
        proof {
            lemma_digit_run(bytes@, 0);
        }
        return None;
    }
    let mut ret: usize = 0;
    let mut i: usize = 0;
    let ghost s = bytes@;
    proof {
        assert(s.take(0).len() == 0);
    }
    while i < bytes.len() && 0x30 <= bytes[i] && bytes[i] <= 0x39
        invariant
            i <= bytes.len(),
            s == bytes@,
            forall|j: int| 0 <= j < i ==> is_digit(#[trigger] s[j]),
            ret == decimal(s.take(i as int)),
            bytes.len() > 0,
            is_digit(s[0]),
        decreases bytes.len() - i,
    {
        let digit = bytes[i] - 0x30;
        proof {
            let t = s.take(i + 1);
            assert(t.drop_last() == s.take(i as int));
            assert(t.last() == s[i as int]);
        }
        // This handles leading zeroes as well.
        let next = match ret.checked_mul(10) {
            Some(val) => val.checked_add(digit as usize),
            None => None,
        };
        match next {
            Some(val) => {
                ret = val;
            },
            None => {
                proof {
                    // the number only grows with more digits
                    lemma_run_digits(s);
                    let n = digit_run(s);
                    if n < i + 1 {
                        assert(is_digit(s[n as int]));
                    }
                    lemma_decimal_grows(s, (i + 1) as nat, n);
                }
                return None;
            },
        }
        i += 1;
    }
    proof {
        lemma_digit_run(s, i as nat);
    }
    Some((ret, slice_subrange(bytes, i, bytes.len())))
}

/// Parses the decimal number at the start of `bytes`, which must start with
/// a digit and spell a number that fits. Returns the number and the rest.
pub fn parse_usize(bytes: &[u8]) -> (r: (usize, &[u8]))
    requires
        usize_at(bytes@) is Some,
    ensures
        r.1.len() <= bytes.len(),
        usize_at(bytes@) == Some((r.0 as nat, (bytes.len() - r.1.len()) as nat)),
        r.1@ == bytes@.skip(bytes.len() - r.1.len()),
{
    match try_parse_usize(bytes) {
        Some(r) => r,
        None => (0, bytes),
    }
}

/// One part of a version: a number of at most `limit` at the start of `s`,
/// and what follows it.
pub open spec fn part_at(s: Seq<u8>, limit: nat) -> Option<(nat, Seq<u8>)> {
    match usize_at(s) {
        Some((v, n)) => if v <= limit {
            Some((v, s.skip(n as int)))
        } else {
            None
        },
        None => None,
    }
}

/// What follows the period that `s` starts with.
pub open spec fn after_period(s: Seq<u8>) -> Option<Seq<u8>> {
    if s.len() > 0 && s[0] == 0x2e {
        Some(s.skip(1))
    } else {
        None
    }
}

/// The version that `s` spells: a major version of at most sixteen bits,
/// then optionally a period and a minor version of at most eight bits, then
/// optionally a period and a patch version of at most eight bits, and
/// nothing more.
pub open spec fn os_version_of(s: Seq<u8>) -> Option<nat> {
    match part_at(s, u16::MAX as nat) {
        None => None,
        Some((major, s1)) => if s1.len() == 0 {
            Some(packed(major, 0, 0))
        } else {
            match after_period(s1) {
                None => None,
                Some(s2) => match part_at(s2, u8::MAX as nat) {
                    None => None,
                    Some((minor, s3)) => if s3.len() == 0 {
                        Some(packed(major, minor, 0))
                    } else {
                        match after_period(s3) {
                            None => None,
                            Some(s4) => match part_at(s4, u8::MAX as nat) {
                                None => None,
                                Some((patch, s5)) => if s5.len() == 0 {
                                    Some(packed(major, minor, patch))
                                } else {
                                    None
                                },
                            },
                        }
                    },
                },
            }
        },
    }
}

/// One part of a version, or `None` where there is none within the limit.
fn try_parse_part(bytes: &[u8], limit: usize) -> (r: Option<(usize, &[u8])>)
    ensures
        match r {
            Some((v, rest)) => part_at(bytes@, limit as nat) == Some((v as nat, rest@)),
            None => part_at(bytes@, limit as nat) is None,
        },
{
    match try_parse_usize(bytes) {
        Some((v, rest)) => {
            proof {
                let n = (bytes.len() - rest.len()) as nat;
                assert(rest@ == bytes@.skip(n as int));
            }
            if v > limit {
                None
            } else {
                Some((v, rest))
            }
        },
        None => None,
    }
}

/// What follows the period that `bytes` starts with, or `None`.
fn skip_period(bytes: &[u8]) -> (r: Option<&[u8]>)
    ensures
        match r {
            Some(rest) => after_period(bytes@) == Some(rest@),
            None => after_period(bytes@) is None,
        },
{
    if bytes.len() > 0 && bytes[0] == 0x2e {
        Some(slice_subrange(bytes, 1, bytes.len()))
    } else {
        None
    }
}

/// Parse an OS version from a bytestring like b"10.1" or b"14.3.7", or
/// `None` where the bytes spell no version.
pub fn try_parse_os_version(bytes: &[u8]) -> (r: Option<OSVersion>)
    ensures
        match r {
            Some(v) => os_version_of(bytes@) == Some(v as nat),
            None => os_version_of(bytes@) is None,
        },
{
    let (major, bytes) = match try_parse_part(bytes, 0xffff) {
        Some(p) => p,
        None => {
            return None;
        },
    };
    let major = major as u16;
    if bytes.len() == 0 {
        return Some(pack_os_version(major, 0, 0));
    }
    let bytes = match skip_period(bytes) {
        Some(b) => b,
        None => {
            return None;
        },
    };
    let (minor, bytes) = match try_parse_part(bytes, 0xff) {
        Some(p) => p,
        None => {
            return None;
        },
    };
    let minor = minor as u8;
    if bytes.len() == 0 {
        return Some(pack_os_version(major, minor, 0));
    }
    let bytes = match skip_period(bytes) {
        Some(b) => b,
        None => {
            return None;
        },
    };
    let (patch, bytes) = match try_parse_part(bytes, 0xff) {
        Some(p) => p,
        None => {
            return None;
        },
    };
    let patch = patch as u8;
    if bytes.len() != 0 {
        return None;
    }
    Some(pack_os_version(major, minor, patch))
}

/// Parse an OS version from a bytestring like b"10.1" or b"14.3.7".
pub fn parse_os_version(bytes: &[u8]) -> (r: OSVersion)
    requires
        os_version_of(bytes@) is Some,
    ensures
        os_version_of(bytes@) == Some(r as nat),
{
    match try_parse_os_version(bytes) {
        Some(v) => v,
        None => 0,
    }
}

} // verus!
