use vstd::prelude::*;
use vstd::string::*;
use crate::spec_weekday;
use crate::calculate_weekday;

verus! {

/// Splitting a character sequence at every occurrence of `sep`, as Rust's
/// `str::split` has it: `n` separators give `n + 1` segments, empty segments
/// included.
pub open spec fn spec_split(s: Seq<char>, sep: char) -> Seq<Seq<char>>
    decreases s.len(),
{
    if s.len() == 0 {
        seq![Seq::<char>::empty()]
    } else if s.last() == sep {
        spec_split(s.drop_last(), sep).push(Seq::<char>::empty())
    } else {
        let prev = spec_split(s.drop_last(), sep);
        prev.update(prev.len() - 1, prev.last().push(s.last()))
    }
}

pub proof fn lemma_split_len(s: Seq<char>, sep: char)
    ensures
        spec_split(s, sep).len() >= 1,
    decreases s.len(),
{
    if s.len() > 0 {
        lemma_split_len(s.drop_last(), sep);
    }
}

/// No segment of a split contains the separator.
pub proof fn lemma_split_no_sep(s: Seq<char>, sep: char)
    ensures
        forall|k: int, p: int|
            0 <= k < spec_split(s, sep).len() && 0 <= p < spec_split(s, sep)[k].len()
                ==> spec_split(s, sep)[k][p] != sep,
    decreases s.len(),
{
    if s.len() > 0 {
        lemma_split_len(s.drop_last(), sep);
        lemma_split_no_sep(s.drop_last(), sep);
    }
}

/// The sequence with every trailing `c` removed, as `str::trim_end_matches`
/// has it for a single-character pattern.
pub open spec fn spec_trim_end(s: Seq<char>, c: char) -> Seq<char>
    decreases s.len(),
{
    if s.len() > 0 && s.last() == c {
        spec_trim_end(s.drop_last(), c)
    } else {
        s
    }
}

pub open spec fn is_digit_char(c: char) -> bool {
    48 <= c as u32 <= 57
}

pub open spec fn digit_of(c: char) -> int {
    c as u32 - 48
}

pub open spec fn all_digits(s: Seq<char>) -> bool {
    forall|i: int| 0 <= i < s.len() ==> is_digit_char(#[trigger] s[i])
}

/// Numeric value of a sequence of decimal digits.
pub open spec fn digits_val(s: Seq<char>) -> int
    decreases s.len(),
{
    if s.len() == 0 {
        0
    } else {
        digits_val(s.drop_last()) * 10 + digit_of(s.last())
    }
}

pub proof fn lemma_digits_val_nonneg(s: Seq<char>)
    requires
        all_digits(s),
    ensures
        digits_val(s) >= 0,
    decreases s.len(),
{
    if s.len() > 0 {
        assert(all_digits(s.drop_last()));
        lemma_digits_val_nonneg(s.drop_last());
    }
}

/// A prefix of a digit string never has a larger value than the whole.
pub proof fn lemma_digits_val_prefix(s: Seq<char>, i: int)
    requires
        all_digits(s),
        0 <= i <= s.len(),
    ensures
        digits_val(s) >= digits_val(s.take(i)),
    decreases s.len(),
{
    if i < s.len() {
        assert(all_digits(s.drop_last()));
        assert(s.drop_last().take(i) =~= s.take(i));
        lemma_digits_val_prefix(s.drop_last(), i);
        lemma_digits_val_nonneg(s.drop_last());
    } else {
        assert(s.take(i) =~= s);
    }
}

/// The grammar of `str::parse::<u32>`: an optional leading `+`, then one or
/// more decimal digits, with the value within range.
pub open spec fn spec_parse_u32(s: Seq<char>) -> Option<u32> {
    let body = if s.len() > 0 && s[0] == '+' {
        s.skip(1)
    } else {
        s
    };
    if body.len() > 0 && all_digits(body) && digits_val(body) <= u32::MAX {
        Some(digits_val(body) as u32)
    } else {
        None
    }
}

/// The grammar of `str::parse::<i32>`: an optional sign, then one or more
/// decimal digits, with the value within range.
pub open spec fn spec_parse_i32(s: Seq<char>) -> Option<i32> {
    let neg = s.len() > 0 && s[0] == '-';
    let body = if s.len() > 0 && (s[0] == '+' || s[0] == '-') {
        s.skip(1)
    } else {
        s
    };
    if body.len() > 0 && all_digits(body) && (if neg {
        digits_val(body) <= 2147483648
    } else {
        digits_val(body) <= 2147483647
    }) {
        Some((if neg {
            -digits_val(body)
        } else {
            digits_val(body)
        }) as i32)
    } else {
        None
    }
}

/// Reads the digits of `s` from position `off` on and returns their value,
/// or `None` when they are empty, not all digits, or worth more than `limit`.
fn parse_digits(s: &str, off: usize, limit: u64) -> (r: Option<u64>)
    requires
        off <= s@.len(),
        limit <= 4294967295u64,
    ensures
        match r {
            Some(v) => {
                &&& s@.skip(off as int).len() > 0
                &&& all_digits(s@.skip(off as int))
                &&& digits_val(s@.skip(off as int)) == v
                &&& v <= limit
            },
            None => s@.skip(off as int).len() == 0 || !all_digits(s@.skip(off as int))
                || digits_val(s@.skip(off as int)) > limit,
        },
{
    let ghost body = s@.skip(off as int);
    let n = s.unicode_len();
    if off == n {
        return None;
    }
    let mut acc: u64 = 0;
    let mut j: usize = off;
    while j < n
        invariant
            off <= j <= n,
            n == s@.len(),
            off < n,
            body == s@.skip(off as int),
            limit <= 4294967295u64,
            acc <= limit,
            acc == digits_val(body.take(j - off)),
            all_digits(body.take(j - off)),
        decreases n - j,
    {
        let c = s.get_char(j);
        let cu = c as u32;
        proof {
            assert(body[j - off] == s@[j as int]);
            assert(body.take(j + 1 - off).drop_last() =~= body.take(j - off));
        }
        if cu < 48 || cu > 57 {
            assert(!is_digit_char(body[j - off]));
            return None;
        }
        let d: u64 = (cu - 48) as u64;
        let next: u64 = acc * 10 + d;
        if next > limit {
            proof {
                assert(all_digits(body.take(j + 1 - off)));
                assert(digits_val(body.take(j + 1 - off)) == next);
                if all_digits(body) {
                    lemma_digits_val_prefix(body, j + 1 - off);
                }
            }
            return None;
        }
        acc = next;
        j += 1;
    }
    proof {
        assert(body.take(n - off) =~= body);
    }
    Some(acc)
}

/// Relies on nothing outside the crate: `str::parse::<u32>` restated.
pub fn parse_u32_str(s: &str) -> (r: Option<u32>)
    ensures
        r == spec_parse_u32(s@),
{
    let n = s.unicode_len();
    let off: usize = if n > 0 && s.get_char(0) == '+' {
        1
    } else {
        0
    };
    proof {
        if off == 0 {
            assert(s@.skip(0) =~= s@);
        }
    }
    match parse_digits(s, off, 4294967295u64) {
        Some(v) => Some(v as u32),
        None => None,
    }
}

/// `str::parse::<i32>` restated.
pub fn parse_i32_str(s: &str) -> (r: Option<i32>)
    ensures
        r == spec_parse_i32(s@),
{
    let n = s.unicode_len();
    let mut neg = false;
    let mut off: usize = 0;
    if n > 0 {
        let c0 = s.get_char(0);
        if c0 == '+' {
            off = 1;
        } else if c0 == '-' {
            off = 1;
            neg = true;
        }
    }
    proof {
        if off == 0 {
            assert(s@.skip(0) =~= s@);
        }
    }
    let limit: u64 = if neg {
        2147483648u64
    } else {
        2147483647u64
    };
    match parse_digits(s, off, limit) {
        Some(v) => {
            if neg {
                Some((-(v as i64)) as i32)
            } else {
                Some(v as i32)
            }
        },
        None => None,
    }
}

pub open spec fn seq_views(ss: Seq<String>) -> Seq<Seq<char>> {
    ss.map_values(|x: String| x@)
}

/// Splits `s` at every occurrence of `sep`, as `str::split` does.
pub fn split_str(s: &str, sep: char) -> (parts: Vec<String>)
    ensures
        seq_views(parts@) == spec_split(s@, sep),
{
    let n = s.unicode_len();
    let mut parts: Vec<String> = Vec::new();
    let mut start: usize = 0;
    let mut i: usize = 0;
    proof {
        assert(s@.take(0) =~= Seq::<char>::empty());
        assert(s@.subrange(0, 0) =~= Seq::<char>::empty());
        assert(seq_views(parts@).push(s@.subrange(0, 0)) =~~= spec_split(s@.take(0), sep));
    }
    while i < n
        invariant
            start <= i <= n,
            n == s@.len(),
            seq_views(parts@).push(s@.subrange(start as int, i as int)) == spec_split(
                s@.take(i as int),
                sep,
            ),
        decreases n - i,
    {
        let c = s.get_char(i);
        proof {
            assert(s@.take(i + 1).drop_last() =~= s@.take(i as int));
            assert(s@.take(i + 1).last() == s@[i as int]);
        }
        if c == sep {
            let seg = s.substring_char(start, i).to_owned();
            parts.push(seg);
            proof {
                assert(s@.subrange(start as int, i as int) == seg@);
                assert(seq_views(parts@) =~~= spec_split(s@.take(i as int), sep));
                assert(s@.subrange(i + 1, i + 1) =~= Seq::<char>::empty());
                assert(seq_views(parts@).push(s@.subrange(i + 1, i + 1)) =~~= spec_split(
                    s@.take(i + 1),
                    sep,
                ));
            }
            start = i + 1;
        } else {
            proof {
                let prev = spec_split(s@.take(i as int), sep);
                assert(prev.last() == s@.subrange(start as int, i as int));
                assert(s@.subrange(start as int, i as int).push(s@[i as int]) =~= s@.subrange(
                    start as int,
                    i + 1,
                ));
                assert(seq_views(parts@).push(s@.subrange(start as int, i + 1)) =~~= prev.update(
                    prev.len() - 1,
                    prev.last().push(s@[i as int]),
                ));
            }
        }
        i += 1;
    }
    let seg = s.substring_char(start, n).to_owned();
    parts.push(seg);
    proof {
        assert(s@.take(n as int) =~= s@);
        assert(s@.subrange(start as int, n as int) == seg@);
        assert(seq_views(parts@) =~~= spec_split(s@, sep));
    }
    parts
}

/// The calendar fields that the resolver reads out of a timestamp string.
#[derive(Clone, Copy, PartialEq, Eq, Structural, Debug)]
pub struct SimpleDateTime {
    pub year: i32,
    pub month: u32,
    pub day: u32,
    pub hour: u32,
    pub minute: u32,
    pub weekday: u32,
}

impl SimpleDateTime {
    pub fn weekday(&self) -> (w: u32)
        ensures
            w == self.weekday,
    {
        self.weekday
    }

    pub fn hour(&self) -> (h: u32)
        ensures
            h == self.hour,
    {
        self.hour
    }

    pub fn year(&self) -> (y: i32)
        ensures
            y == self.year,
    {
        self.year
    }

    pub fn month(&self) -> (m: u32)
        ensures
            m == self.month,
    {
        self.month
    }
}

/// What `parse_timestamp` returns: the restricted ISO-8601 pattern
/// `YYYY-MM-DDTHH:MM[:..][Z]`, read field by field, with the weekday derived
/// by Zeller's congruence.
pub open spec fn spec_parse_timestamp(s: Seq<char>) -> Option<SimpleDateTime> {
    let tparts = spec_split(s, 'T');
    if tparts.len() != 2 {
        None
    } else {
        let dparts = spec_split(tparts[0], '-');
        if dparts.len() != 3 {
            None
        } else {
            match (spec_parse_i32(dparts[0]), spec_parse_u32(dparts[1]), spec_parse_u32(
                dparts[2],
            )) {
                (Some(year), Some(month), Some(day)) => {
                    let timeparts = spec_split(spec_trim_end(tparts[1], 'Z'), ':');
                    if timeparts.len() < 2 {
                        None
                    } else {
                        match (spec_parse_u32(timeparts[0]), spec_parse_u32(timeparts[1])) {
                            (Some(hour), Some(minute)) => Some(
                                SimpleDateTime {
                                    year,
                                    month,
                                    day,
                                    hour,
                                    minute,
                                    weekday: spec_weekday(
                                        year as int,
                                        month as int,
                                        day as int,
                                    ) as u32,
                                },
                            ),
                            _ => None,
                        }
                    }
                },
                _ => None,
            }
        }
    }
}

/// Drops every trailing `Z` of `s`, as `str::trim_end_matches('Z')` does.
fn trim_z(s: &String) -> (r: String)
    ensures
        r@ == spec_trim_end(s@, 'Z'),
{
    let mut end = s.as_str().unicode_len();
    proof {
        assert(s@.take(s@.len() as int) =~= s@);
    }
    while end > 0 && s.as_str().get_char(end - 1) == 'Z'
        invariant
            end <= s@.len(),
            spec_trim_end(s@.take(end as int), 'Z') == spec_trim_end(s@, 'Z'),
        decreases end,
    {
        proof {
            assert(s@.take(end as int).drop_last() =~= s@.take(end - 1));
        }
        end = end - 1;
    }
    let r = s.as_str().substring_char(0, end).to_owned();
    proof {
        let t = s@.take(end as int);
        assert(t.len() == 0 || t.last() != 'Z');
        assert(spec_trim_end(t, 'Z') == t);
        assert(s@.subrange(0, end as int) =~= t);
    }
    r
}

/// Parses a restricted ISO-8601 timestamp; `None` on any malformed part.
/// The fields come back exactly as written, out-of-range months and days
/// included: callers bucket by them without further validation.
pub fn parse_timestamp(ts: &str) -> (r: Option<SimpleDateTime>)
    ensures
        r == spec_parse_timestamp(ts@),
        r is Some ==> r.unwrap().year >= 0,
        r is Some ==> r.unwrap().weekday <= 6,
{
    proof {
        lemma_split_len(ts@, 'T');
    }
    let tparts = split_str(ts, 'T');
    if tparts.len() != 2 {
        return None;
    }
    proof {
        lemma_split_len(tparts@[0]@, '-');
        lemma_split_no_sep(tparts@[0]@, '-');
    }
    let dparts = split_str(&tparts[0], '-');
    if dparts.len() != 3 {
        return None;
    }
    let year = match parse_i32_str(dparts[0].as_str()) {
        Some(y) => y,
        None => {
            return None;
        },
    };
    let month = match parse_u32_str(dparts[1].as_str()) {
        Some(m) => m,
        None => {
            return None;
        },
    };
    let day = match parse_u32_str(dparts[2].as_str()) {
        Some(d) => d,
        None => {
            return None;
        },
    };
    let time_part = trim_z(&tparts[1]);
    let timeparts = split_str(time_part.as_str(), ':');
    if timeparts.len() < 2 {
        return None;
    }
    let hour = match parse_u32_str(timeparts[0].as_str()) {
        Some(h) => h,
        None => {
            return None;
        },
    };
    let minute = match parse_u32_str(timeparts[1].as_str()) {
        Some(m) => m,
        None => {
            return None;
        },
    };
    proof {
        let dseg = spec_split(spec_split(ts@, 'T')[0], '-')[0];
        assert(dseg == dparts@[0]@);
        if dseg.len() > 0 {
            assert(dseg[0] != '-');
        }
        let body = if dseg.len() > 0 && (dseg[0] == '+' || dseg[0] == '-') {
            dseg.skip(1)
        } else {
            dseg
        };
        lemma_digits_val_nonneg(body);
    }
    let weekday = calculate_weekday(year, month, day);
    Some(SimpleDateTime { year, month, day, hour, minute, weekday })
}

} // verus!
