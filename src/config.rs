//! Startup configuration: the monitored parent directory and the reclaim
//! threshold, parsed from their textual form.
use vstd::prelude::*;
use vstd::string::StrSliceExecFns;

use crate::text::{
    all_digits, chars_of, digits_value, is_digit, lemma_digits_bound, parse_u64_range, pow10,
};

verus! {

/// Why a configuration value was refused.
#[derive(Clone, Copy, Debug, PartialEq, Eq, Structural)]
pub enum ConfigError {
    /// The parent path is not an existing directory.
    InvalidDirectory,
    /// A `%` threshold whose number is not a decimal with at most four
    /// fractional digits, or does not fit.
    InvalidPercent,
    /// A byte threshold that the byte-size parser refused.
    InvalidBytes,
}

/// The point at which a cgroup's page cache is reclaimed.
#[derive(Clone, Copy, Debug, PartialEq, Eq, Structural)]
pub enum Threshold {
    /// An absolute number of cache bytes.
    Bytes(u64),
    /// A share of the cgroup's memory limit, in millionths of the limit
    /// (ten thousand per percent).
    Percent(u64),
}

/// Millionths of the limit per percent.
pub const PER_PERCENT: u64 = 10_000;

/// Fractional digits that a percentage may carry.
pub const MAX_FRACTION_DIGITS: usize = 4;

/// Result of the outside byte-size parser on a text: the number of bytes it
/// denotes, or `None` where the parser refuses the text.
pub uninterp spec fn byte_size_of(s: Seq<char>) -> Option<u128>;

/// Declares the outside parser's error type so that its result can be carried.
#[verifier::external_type_specification]
#[verifier::external_body]
pub struct ExByteError(byte_unit::ByteError);

/// Relies on `byte_unit::Byte::from_str` (with `Byte::get_bytes` reading the
/// parsed count): the number of bytes that a text such as `100KiB` denotes,
/// or the parser's error. The result depends on the text alone.
#[verifier::external_body]
fn parse_byte_size(s: &str) -> (r: Result<u128, byte_unit::ByteError>)
    ensures
        r is Ok <==> byte_size_of(s@) is Some,
        r is Ok ==> byte_size_of(s@) == Some(r->Ok_0),
{
    match byte_unit::Byte::from_str(s) {
        Ok(b) => Ok(b.get_bytes()),
        Err(e) => Err(e),
    }
}

/// Index of the first `.` in `s`, or its length.
pub open spec fn dot_index(s: Seq<char>) -> nat
    decreases s.len(),
{
    if s.len() == 0 || s[0] == '.' {
        0
    } else {
        1 + dot_index(s.drop_first())
    }
}

/// The millionths of the limit that a percentage text denotes: one or more
/// digits, then optionally `.` and one to four digits.
pub open spec fn percent_of(s: Seq<char>) -> Option<u64> {
    let k = dot_index(s) as int;
    let whole = s.subrange(0, k);
    let frac = if k < s.len() {
        s.subrange(k + 1, s.len() as int)
    } else {
        Seq::empty()
    };
    let v = digits_value(whole) * PER_PERCENT + digits_value(frac) * pow10(
        (MAX_FRACTION_DIGITS - frac.len()) as nat,
    );
    if whole.len() > 0 && all_digits(whole) && all_digits(frac) && (k < s.len() ==> 1
        <= frac.len() <= MAX_FRACTION_DIGITS) && v <= u64::MAX {
        Some(v as u64)
    } else {
        None
    }
}

/// Whether `s` ends with `%`.
pub open spec fn is_percent_text(s: Seq<char>) -> bool {
    s.len() > 0 && s.last() == '%'
}

/// The threshold, or the error, that a text denotes: a number followed by
/// `%` is a share of the limit; anything else is read as a byte size.
pub open spec fn threshold_of(s: Seq<char>) -> Result<Threshold, ConfigError> {
    if is_percent_text(s) {
        match percent_of(s.drop_last()) {
            Some(p) => Ok(Threshold::Percent(p)),
            None => Err(ConfigError::InvalidPercent),
        }
    } else {
        match byte_size_of(s) {
            Some(b) => Ok(bytes_threshold_spec(b)),
            None => Err(ConfigError::InvalidBytes),
        }
    }
}

/// A byte count as a threshold; counts beyond 64 bits keep their low 64 bits.
pub open spec fn bytes_threshold_spec(b: u128) -> Threshold {
    Threshold::Bytes(b as u64)
}

/// The threshold for a byte count that the byte-size parser produced.
pub fn bytes_threshold(b: u128) -> (r: Threshold)
    ensures
        r == bytes_threshold_spec(b),
{
    Threshold::Bytes(b as u64)
}

/// Whether `s[from..to]` is one or more decimal digits.
fn digits_only(s: &Vec<char>, from: usize, to: usize) -> (r: bool)
    requires
        from <= to <= s@.len(),
    ensures
        r == (from < to && all_digits(s@.subrange(from as int, to as int))),
{
    if from == to {
        return false;
    }
    let mut i = from;
    while i < to
        invariant
            from <= i <= to <= s@.len(),
            forall|j: int| from <= j < i ==> is_digit(#[trigger] s@[j]),
        decreases to - i,
    {
        if !('0' <= s[i] && s[i] <= '9') {
            assert(!is_digit(s@.subrange(from as int, to as int)[i - from]));
            return false;
        }
        i = i + 1;
    }
    assert forall|j: int| 0 <= j < to - from implies is_digit(
        #[trigger] s@.subrange(from as int, to as int)[j],
    ) by {
        assert(is_digit(s@[from + j]));
    }
    true
}

/// The percentage that `s` holds, in millionths of the limit.
pub fn parse_percent(s: &str) -> (r: Option<u64>)
    ensures
        r == percent_of(s@),
{
    let c = chars_of(s);
    let n = c.len();
    let mut k: usize = 0;
    assert(c@.subrange(0, n as int) =~= c@);
    while k < n && c[k] != '.'
        invariant
            k <= n == c@.len(),
            dot_index(c@) == k + dot_index(c@.subrange(k as int, n as int)),
        decreases n - k,
    {
        assert(c@.subrange(k as int, n as int).drop_first() =~= c@.subrange(k + 1, n as int));
        k = k + 1;
    }
    assert(c@.subrange(0, n as int) =~= c@);
    let ghost whole = c@.subrange(0, k as int);
    let ghost frac = if k < n {
        c@.subrange(k + 1, n as int)
    } else {
        Seq::empty()
    };
    let fs: usize = if k < n {
        k + 1
    } else {
        n
    };
    assert(frac =~= c@.subrange(fs as int, n as int));
    if !digits_only(&c, 0, k) {
        return None;
    }
    if k < n && (n - fs < 1 || n - fs > MAX_FRACTION_DIGITS) {
        return None;
    }
    let frac_ok = fs == n || digits_only(&c, fs, n);
    if !frac_ok {
        return None;
    }
    assert(all_digits(frac));
    let w = parse_u64_range(&c, 0, k);
    assert(is_digit(whole[0]));
    let ghost v = digits_value(whole) * PER_PERCENT + digits_value(frac) * pow10(
        (MAX_FRACTION_DIGITS - frac.len()) as nat,
    );
    match w {
        None => {
            assert(digits_value(whole) > u64::MAX);
            assert(v > u64::MAX) by (nonlinear_arith)
                requires
                    digits_value(whole) > u64::MAX,
                    v == digits_value(whole) * PER_PERCENT + digits_value(frac) * pow10(
                        (MAX_FRACTION_DIGITS - frac.len()) as nat,
                    ),
            ;
            None
        },
        Some(wv) => {
            let fv: u64 = if fs == n {
                0
            } else {
                match parse_u64_range(&c, fs, n) {
                    Some(x) => x,
                    None => 0,
                }
            };
            let scale: u64 = if n - fs == 0 {
                10_000
            } else if n - fs == 1 {
                1_000
            } else if n - fs == 2 {
                100
            } else if n - fs == 3 {
                10
            } else {
                1
            };
            proof {
                assert(frac.len() == n - fs);
                assert(pow10(0) == 1);
                assert(pow10(1) == 10);
                assert(pow10(2) == 100);
                assert(pow10(3) == 1000);
                assert(pow10(4) == 10000);
                if fs < n {
                    assert(is_digit(frac[0]));
                    lemma_digits_bound(frac);
                    assert(digits_value(frac) == fv);
                } else {
                    assert(digits_value(frac) == 0);
                }
                assert(pow10((MAX_FRACTION_DIGITS - frac.len()) as nat) == scale);
                assert(fv < 10000);
                assert(fv as nat * scale as nat <= 10000 * 10000) by (nonlinear_arith)
                    requires
                        fv < 10000,
                        scale <= 10000,
                ;
            }
            let total: u128 = wv as u128 * 10_000 + fv as u128 * scale as u128;
            if total > u64::MAX as u128 {
                None
            } else {
                Some(total as u64)
            }
        },
    }
}

/// The threshold that `value` denotes: a number followed by `%` is a share
/// of the cgroup's memory limit; anything else is read as a byte size such
/// as `100`, `100KB` or `100MiB`.
pub fn get_threshold(value: &str) -> (r: Result<Threshold, ConfigError>)
    ensures
        r == threshold_of(value@),
{
    let c = chars_of(value);
    let n = c.len();
    if n > 0 && c[n - 1] == '%' {
        let body = value.substring_char(0, n - 1);
        assert(body@ =~= value@.drop_last());
        match parse_percent(body) {
            Some(p) => Ok(Threshold::Percent(p)),
            None => Err(ConfigError::InvalidPercent),
        }
    } else {
        match parse_byte_size(value) {
            Ok(b) => Ok(bytes_threshold(b)),
            Err(_) => Err(ConfigError::InvalidBytes),
        }
    }
}

/// The parent directory to monitor: `value` itself when it names an existing
/// directory (`is_dir`, as the file system reports it), else an error.
pub fn get_parent(value: &str, is_dir: bool) -> (r: Result<String, ConfigError>)
    ensures
        is_dir ==> r is Ok && r->Ok_0@ == value@,
        !is_dir ==> r == Err::<String, ConfigError>(ConfigError::InvalidDirectory),
{
    if is_dir {
        Ok(value.to_owned())
    } else {
        Err(ConfigError::InvalidDirectory)
    }
}

} // verus!
