//! Interpretation of a memory cgroup's accounting files.
use vstd::prelude::*;

use crate::text::{chars_of, parse_u64_range, parse_u64_spec, trim, trim_range};

verus! {

/// One snapshot of a cgroup's memory accounting.
#[derive(Clone, Copy, Debug, PartialEq, Eq, Structural)]
pub struct MemoryStats {
    /// Byte cap of the cgroup; 0 when unknown.
    pub limit: u64,
    /// Reclaimable page-cache bytes.
    pub cache: u64,
    /// Resident bytes; reported, not used in decisions.
    pub rss: u64,
}

/// Whether `s` begins with `p`.
pub open spec fn starts_with(s: Seq<char>, p: Seq<char>) -> bool {
    p.len() <= s.len() && s.subrange(0, p.len() as int) == p
}

/// `s` with every leading repetition of `p` removed (`str::trim_start_matches`).
pub open spec fn strip_all(p: Seq<char>, s: Seq<char>) -> Seq<char>
    decreases s.len(),
{
    if p.len() > 0 && starts_with(s, p) {
        strip_all(p, s.subrange(p.len() as int, s.len() as int))
    } else {
        s
    }
}

/// The number after `prefix` on a trimmed line, if the line begins with it.
pub open spec fn prefixed_value(prefix: Seq<char>, line: Seq<char>) -> Option<u64> {
    let t = trim(line);
    if starts_with(t, prefix) {
        parse_u64_spec(strip_all(prefix, t))
    } else {
        None
    }
}

/// Number of characters before the first line break of `s`.
pub open spec fn line_len(s: Seq<char>) -> nat
    decreases s.len(),
{
    if s.len() == 0 || s[0] == '\n' {
        0
    } else {
        1 + line_len(s.drop_first())
    }
}

/// The value of the first line of `s` that carries `prefix` and a number.
pub open spec fn field_value(prefix: Seq<char>, s: Seq<char>) -> Option<u64>
    decreases s.len(),
{
    let e = line_len(s);
    match prefixed_value(prefix, s.subrange(0, e as int)) {
        Some(v) => Some(v),
        None => if e < s.len() {
            field_value(prefix, s.subrange(e + 1int, s.len() as int))
        } else {
            None
        },
    }
}

pub open spec fn or_zero(v: Option<u64>) -> u64 {
    match v {
        Some(x) => x,
        None => 0,
    }
}

pub open spec fn rss_key() -> Seq<char> {
    seq!['r', 's', 's', ' ']
}

pub open spec fn cache_key() -> Seq<char> {
    seq!['c', 'a', 'c', 'h', 'e', ' ']
}

/// The snapshot that a stats file and a limit file describe: missing or
/// unparsable values count as zero.
pub open spec fn stats_of(stat: Seq<char>, limit: Seq<char>) -> MemoryStats {
    MemoryStats {
        limit: or_zero(parse_u64_spec(trim(limit))),
        cache: or_zero(field_value(cache_key(), stat)),
        rss: or_zero(field_value(rss_key(), stat)),
    }
}

/// Whether `s[at..to]` begins with `p`.
fn starts_with_at(s: &Vec<char>, at: usize, to: usize, p: &Vec<char>) -> (r: bool)
    requires
        at <= to <= s@.len(),
    ensures
        r == starts_with(s@.subrange(at as int, to as int), p@),
{
    if p.len() > to - at {
        return false;
    }
    let mut k: usize = 0;
    while k < p.len()
        invariant
            p@.len() <= to - at,
            at <= to <= s@.len(),
            k <= p@.len(),
            forall|j: int| 0 <= j < k ==> s@[at + j] == p@[j],
        decreases p@.len() - k,
    {
        if s[at + k] != p[k] {
            assert(s@.subrange(at as int, to as int).subrange(0, p@.len() as int)[k as int]
                != p@[k as int]);
            return false;
        }
        k = k + 1;
    }
    assert(s@.subrange(at as int, to as int).subrange(0, p@.len() as int) =~= p@);
    true
}

/// `prefixed_value(p, s[from..to])`.
fn prefixed_value_range(p: &Vec<char>, s: &Vec<char>, from: usize, to: usize) -> (r: Option<u64>)
    requires
        from <= to <= s@.len(),
    ensures
        r == prefixed_value(p@, s@.subrange(from as int, to as int)),
{
    let (lo, hi) = trim_range(s, from, to);
    if !starts_with_at(s, lo, hi, p) {
        return None;
    }
    let mut at = lo;
    while p.len() > 0 && starts_with_at(s, at, hi, p)
        invariant
            lo <= at <= hi <= s@.len(),
            strip_all(p@, s@.subrange(lo as int, hi as int)) == strip_all(
                p@,
                s@.subrange(at as int, hi as int),
            ),
        decreases hi - at,
    {
        assert(s@.subrange(at as int, hi as int).subrange(p@.len() as int, (hi - at) as int)
            =~= s@.subrange(at + p@.len(), hi as int));
        at = at + p.len();
    }
    parse_u64_range(s, at, hi)
}

/// The number that follows `prefix` on `line`, once the line is trimmed and
/// every leading repetition of `prefix` is removed; `None` when the line does
/// not begin with `prefix` or no number follows.
pub fn parse_u64_strip_prefix(prefix: &str, line: &str) -> (r: Option<u64>)
    ensures
        r == prefixed_value(prefix@, line@),
{
    let p = chars_of(prefix);
    let s = chars_of(line);
    assert(s@.subrange(0, s@.len() as int) =~= s@);
    prefixed_value_range(&p, &s, 0, s.len())
}

/// Index of the first line break in `s[from..]`, or the length of `s`.
fn line_end(s: &Vec<char>, from: usize) -> (e: usize)
    requires
        from <= s@.len(),
    ensures
        from <= e <= s@.len(),
        e - from == line_len(s@.subrange(from as int, s@.len() as int)),
{
    let mut e = from;
    while e < s.len() && s[e] != '\n'
        invariant
            from <= e <= s@.len(),
            line_len(s@.subrange(from as int, s@.len() as int)) == (e - from) + line_len(
                s@.subrange(e as int, s@.len() as int),
            ),
        decreases s@.len() - e,
    {
        assert(s@.subrange(e as int, s@.len() as int).drop_first() =~= s@.subrange(
            e + 1,
            s@.len() as int,
        ));
        e = e + 1;
    }
    e
}

/// The snapshot that the contents of a stats file and of a limit file
/// describe. The stats file holds `key value` lines in any order; the first
/// `rss ` and `cache ` lines that carry a number give those fields. The limit
/// file holds one number. Whatever is missing or unparsable counts as zero.
pub fn parse_memory_stats(stat: &str, limit: &str) -> (r: MemoryStats)
    ensures
        r == stats_of(stat@, limit@),
{
    let s = chars_of(stat);
    let rss_p: Vec<char> = vec!['r', 's', 's', ' '];
    let cache_p: Vec<char> = vec!['c', 'a', 'c', 'h', 'e', ' '];
    assert(rss_p@ =~= rss_key());
    assert(cache_p@ =~= cache_key());
    let mut rss: Option<u64> = None;
    let mut cache: Option<u64> = None;
    let mut pos: usize = 0;
    let mut done = false;
    assert(s@.subrange(0, s@.len() as int) =~= s@);
    while !done
        invariant
            pos <= s@.len(),
            rss_p@ == rss_key(),
            cache_p@ == cache_key(),
            match rss {
                Some(v) => field_value(rss_key(), s@) == Some(v),
                None => done ==> field_value(rss_key(), s@) is None,
            },
            rss is None && !done ==> field_value(rss_key(), s@) == field_value(
                rss_key(),
                s@.subrange(pos as int, s@.len() as int),
            ),
            match cache {
                Some(v) => field_value(cache_key(), s@) == Some(v),
                None => done ==> field_value(cache_key(), s@) is None,
            },
            cache is None && !done ==> field_value(cache_key(), s@) == field_value(
                cache_key(),
                s@.subrange(pos as int, s@.len() as int),
            ),
        decreases s@.len() - pos + (if done { 0int } else { 1int }),
    {
        let ghost rest = s@.subrange(pos as int, s@.len() as int);
        let e = line_end(&s, pos);
        assert(rest.subrange(0, (e - pos) as int) =~= s@.subrange(pos as int, e as int));
        assert(field_value(rss_key(), rest) == match prefixed_value(
            rss_key(),
            s@.subrange(pos as int, e as int),
        ) {
            Some(v) => Some(v),
            None => if e < s@.len() {
                field_value(rss_key(), s@.subrange(e + 1int, s@.len() as int))
            } else {
                None
            },
        }) by {
            if e < s@.len() {
                assert(rest.subrange(e - pos + 1, rest.len() as int) =~= s@.subrange(
                    e + 1int,
                    s@.len() as int,
                ));
            }
        }
        assert(field_value(cache_key(), rest) == match prefixed_value(
            cache_key(),
            s@.subrange(pos as int, e as int),
        ) {
            Some(v) => Some(v),
            None => if e < s@.len() {
                field_value(cache_key(), s@.subrange(e + 1int, s@.len() as int))
            } else {
                None
            },
        }) by {
            if e < s@.len() {
                assert(rest.subrange(e - pos + 1, rest.len() as int) =~= s@.subrange(
                    e + 1int,
                    s@.len() as int,
                ));
            }
        }
        if rss.is_none() {
            rss = prefixed_value_range(&rss_p, &s, pos, e);
        }
        if cache.is_none() {
            cache = prefixed_value_range(&cache_p, &s, pos, e);
        }
        if e < s.len() {
            assert(rest.subrange(e - pos + 1, rest.len() as int) =~= s@.subrange(
                e + 1,
                s@.len() as int,
            ));
            pos = e + 1;
        } else {
            done = true;
        }
        if rss.is_some() && cache.is_some() {
            done = true;
        }
    }
    let l = chars_of(limit);
    assert(l@.subrange(0, l@.len() as int) =~= l@);
    let (lo, hi) = trim_range(&l, 0, l.len());
    let lim = parse_u64_range(&l, lo, hi);
    MemoryStats {
        limit: match lim {
            Some(v) => v,
            None => 0,
        },
        cache: match cache {
            Some(v) => v,
            None => 0,
        },
        rss: match rss {
            Some(v) => v,
            None => 0,
        },
    }
}

} // verus!
