//! Resolving the run's configuration: the entry cap and the history file
//! path, both from plain bytes that the caller took off the command line or
//! the environment.

use crate::merge::copy_bytes;
use crate::RunError;
use vstd::prelude::*;

verus! {

/// An ASCII plus sign, which the count parser tolerates in front.
pub const PLUS: u8 = 43;

/// The ASCII path separator.
pub const SLASH: u8 = 47;

/// An ASCII decimal digit.
pub open spec fn is_digit(b: u8) -> bool {
    48 <= b <= 57
}

/// The digits of the count argument: one leading plus sign is allowed, as
/// the usual decimal integer parsers accept one.
pub open spec fn count_digits_of(s: Seq<u8>) -> Seq<u8> {
    if s.len() > 0 && s[0] == PLUS {
        s.skip(1)
    } else {
        s
    }
}

/// A well-shaped count argument: at least one digit, digits only.
pub open spec fn is_count_shape(s: Seq<u8>) -> bool {
    let d = count_digits_of(s);
    d.len() > 0 && forall|i: int| 0 <= i < d.len() ==> is_digit(#[trigger] d[i])
}

/// The numeric value of a digit string, most significant digit first.
pub open spec fn digits_value(d: Seq<u8>) -> nat
    decreases d.len(),
{
    if d.len() == 0 {
        0
    } else {
        digits_value(d.drop_last()) * 10 + (d.last() - 48) as nat
    }
}

/// A valid count argument: well shaped, and small enough for the 32-bit
/// range that the command line accepts.
pub open spec fn valid_count(s: Seq<u8>) -> bool {
    is_count_shape(s) && digits_value(count_digits_of(s)) <= u32::MAX
}

/// Reading one more digit never lessens the value.
proof fn lemma_digits_value_step(d: Seq<u8>, j: int)
    requires
        0 <= j < d.len(),
    ensures
        digits_value(d.take(j)) <= digits_value(d.take(j + 1)),
{
    assert(d.take(j + 1).drop_last() =~= d.take(j));
}

/// A prefix of a digit string never has a bigger value than the whole.
proof fn lemma_digits_value_prefix(d: Seq<u8>, j: int)
    requires
        0 <= j <= d.len(),
    ensures
        digits_value(d.take(j)) <= digits_value(d),
    decreases d.len() - j,
{
    if j < d.len() {
        lemma_digits_value_step(d, j);
        lemma_digits_value_prefix(d, j + 1);
    } else {
        assert(d.take(j) =~= d);
    }
}

/// Parse the count argument: an optional plus sign, then decimal digits,
/// rejected when empty, malformed or too large for the 32-bit range.
pub fn parse_count(s: &Vec<u8>) -> (r: Result<usize, RunError>)
    ensures
        match r {
            Ok(n) => valid_count(s@) && n == digits_value(count_digits_of(s@)),
            Err(e) => !valid_count(s@) && e == RunError::InvalidCount,
        },
{
    let ghost d = count_digits_of(s@);
    let mut start: usize = 0;
    if s.len() > 0 && s[0] == PLUS {
        start = 1;
    }
    proof {
        if start == 0 {
            assert(s@.skip(0) =~= s@);
        }
        assert(d == s@.skip(start as int));
    }
    if s.len() == start {
        return Err(RunError::InvalidCount);
    }
    let mut acc: u64 = 0;
    let mut i: usize = start;
    proof {
        assert(d.take(0) =~= Seq::<u8>::empty());
    }
    while i < s.len()
        invariant
            start <= i <= s@.len(),
            start <= 1,
            d == count_digits_of(s@),
            d == s@.skip(start as int),
            d.len() == s@.len() - start,
            forall|k: int| 0 <= k < i - start ==> is_digit(#[trigger] d[k]),
            acc == digits_value(d.take(i - start)),
            acc <= u32::MAX,
        decreases s@.len() - i,
    {
        let b = s[i];
        proof {
            assert(d[i - start] == s@[i as int]);
        }
        if b < 48 || b > 57 {
            proof {
                assert(!is_digit(d[i - start]));
            }
            return Err(RunError::InvalidCount);
        }
        let next: u64 = acc * 10 + ((b - 48) as u64);
        i = i + 1;
        proof {
            assert(d.take(i - start).drop_last() =~= d.take(i - start - 1));
            assert(d.take(i - start).last() == d[i - start - 1]);
            assert(digits_value(d.take(i - start)) == next);
        }
        if next > 0xffff_ffff {
            proof {
                lemma_digits_value_prefix(d, i - start);
                assert(digits_value(d) > u32::MAX);
            }
            return Err(RunError::InvalidCount);
        }
        acc = next;
    }
    proof {
        assert(d.take(i - start) =~= d);
    }
    Ok(acc as usize)
}

/// The fixed name of the default history file.
pub open spec fn default_name_spec() -> Seq<u8> {
    seq![46u8, 100u8, 109u8, 101u8, 110u8, 117u8, 46u8, 114u8, 101u8, 99u8, 101u8, 110u8, 116u8]
}

/// Where the history lives when no path is given: the fixed file name under
/// the home directory, joined with a separator unless one is already there;
/// with no home at all, the bare file name in the current directory.
pub open spec fn default_path_spec(home: Seq<u8>) -> Seq<u8> {
    if home.len() == 0 {
        default_name_spec()
    } else if home.last() == SLASH {
        home + default_name_spec()
    } else {
        home + seq![SLASH] + default_name_spec()
    }
}

/// Build the default history file path from the home directory bytes.
pub fn default_file_path(home: &Vec<u8>) -> (r: Vec<u8>)
    ensures
        r@ == default_path_spec(home@),
{
    let mut out = copy_bytes(home);
    if out.len() > 0 && out[out.len() - 1] != SLASH {
        out.push(SLASH);
    }
    let ghost stem = out@;
    out.push(46);
    out.push(100);
    out.push(109);
    out.push(101);
    out.push(110);
    out.push(117);
    out.push(46);
    out.push(114);
    out.push(101);
    out.push(99);
    out.push(101);
    out.push(110);
    out.push(116);
    proof {
        assert(out@ =~= stem + default_name_spec());
        if home@.len() == 0 {
            assert(stem =~= Seq::<u8>::empty());
            assert(out@ =~= default_name_spec());
        } else if home@.last() == SLASH {
            assert(stem == home@);
        } else {
            assert(stem =~= home@ + seq![SLASH]);
            assert(out@ =~= home@ + seq![SLASH] + default_name_spec());
        }
    }
    out
}

} // verus!
