use vstd::prelude::*;
use vstd::string::*;

verus! {

pub open spec fn digit_char(d: int) -> char {
    if d == 0 {
        '0'
    } else if d == 1 {
        '1'
    } else if d == 2 {
        '2'
    } else if d == 3 {
        '3'
    } else if d == 4 {
        '4'
    } else if d == 5 {
        '5'
    } else if d == 6 {
        '6'
    } else if d == 7 {
        '7'
    } else if d == 8 {
        '8'
    } else {
        '9'
    }
}

/// The decimal digits of a non-negative number, most significant first.
pub open spec fn dec_digits(n: int) -> Seq<char>
    recommends
        n >= 0,
    decreases n,
{
    if n < 10 {
        seq![digit_char(n)]
    } else {
        dec_digits(n / 10).push(digit_char(n % 10))
    }
}

/// `s` left-padded with `'0'` up to width `w`, as `format!("{:0w$}")` pads
/// an unsigned number.
pub open spec fn spec_pad(s: Seq<char>, w: int) -> Seq<char> {
    if s.len() >= w {
        s
    } else {
        Seq::new((w - s.len()) as nat, |i: int| '0') + s
    }
}

/// A signed number under `format!("{:0w$}")`: the sign comes first and
/// counts toward the width.
pub open spec fn spec_i_pad(n: int, w: int) -> Seq<char> {
    if n >= 0 {
        spec_pad(dec_digits(n), w)
    } else {
        seq!['-'] + spec_pad(dec_digits(-n), w - 1)
    }
}

fn digit_str(d: u64) -> (r: &'static str)
    requires
        d < 10,
    ensures
        r@ == seq![digit_char(d as int)],
{
    let r: &'static str = if d == 0 {
        "0"
    } else if d == 1 {
        "1"
    } else if d == 2 {
        "2"
    } else if d == 3 {
        "3"
    } else if d == 4 {
        "4"
    } else if d == 5 {
        "5"
    } else if d == 6 {
        "6"
    } else if d == 7 {
        "7"
    } else if d == 8 {
        "8"
    } else {
        "9"
    };
    proof {
        reveal_strlit("0");
        reveal_strlit("1");
        reveal_strlit("2");
        reveal_strlit("3");
        reveal_strlit("4");
        reveal_strlit("5");
        reveal_strlit("6");
        reveal_strlit("7");
        reveal_strlit("8");
        reveal_strlit("9");
        assert(r@ =~= seq![digit_char(d as int)]);
    }
    r
}

/// Appends the decimal digits of `n` to `out`.
fn push_digits(n: u64, out: &mut String)
    ensures
        final(out)@ == old(out)@ + dec_digits(n as int),
    decreases n,
{
    if n < 10 {
        out.append(digit_str(n));
        proof {
            assert(out@ =~= old(out)@ + dec_digits(n as int));
        }
    } else {
        proof {
            assert(n / 10 < n) by (nonlinear_arith)
                requires
                    n >= 10,
            ;
        }
        push_digits(n / 10, out);
        out.append(digit_str(n % 10));
        proof {
            assert(out@ =~= old(out)@ + dec_digits(n as int));
        }
    }
}

fn count_digits(n: u64) -> (c: usize)
    ensures
        c == dec_digits(n as int).len(),
        1 <= c <= 20,
    decreases n,
{
    if n < 10 {
        1
    } else {
        proof {
            assert(n / 10 < n) by (nonlinear_arith)
                requires
                    n >= 10,
            ;
            lemma_dec_digits_len(n as int);
        }
        let rest = count_digits(n / 10);
        rest + 1
    }
}

/// A `u64` has at most 20 decimal digits.
pub proof fn lemma_dec_digits_len(n: int)
    requires
        0 <= n <= u64::MAX,
    ensures
        1 <= dec_digits(n).len() <= 20,
{
    lemma_dec_digits_low(n);
    if dec_digits(n).len() > 20 {
        lemma_pow10_mono(20, dec_digits(n).len() - 1);
        assert(pow10(20) == 100000000000000000000int) by {
            reveal_with_fuel(pow10, 21);
        };
    }
}

/// A number with `k + 1` digits is at least `10^k`.
proof fn lemma_dec_digits_low(n: int)
    requires
        0 <= n,
    ensures
        dec_digits(n).len() >= 1,
        dec_digits(n).len() >= 2 ==> n >= pow10(dec_digits(n).len() - 1),
    decreases n,
{
    if n >= 10 {
        lemma_dec_digits_low(n / 10);
        if dec_digits(n / 10).len() >= 2 {
            assert(n >= 10 * pow10(dec_digits(n / 10).len() - 1)) by (nonlinear_arith)
                requires
                    n / 10 >= pow10(dec_digits(n / 10).len() - 1),
                    n >= 10,
            ;
        }
    }
}

proof fn lemma_pow10_mono(a: int, b: int)
    requires
        0 <= a <= b,
    ensures
        pow10(a) <= pow10(b),
    decreases b,
{
    if a < b {
        lemma_pow10_mono(a, b - 1);
        assert(pow10(b - 1) >= 1 ==> 10 * pow10(b - 1) >= pow10(b - 1));
        lemma_pow10_pos(b - 1);
    }
}

proof fn lemma_pow10_pos(k: int)
    ensures
        pow10(k) >= 1,
    decreases k,
{
    if k > 0 {
        lemma_pow10_pos(k - 1);
    }
}

pub open spec fn pow10(k: int) -> int
    decreases k,
{
    if k <= 0 {
        1
    } else {
        10 * pow10(k - 1)
    }
}

/// Appends `n` zero-padded to width `w`.
fn push_u_pad(n: u64, w: usize, out: &mut String)
    requires
        w <= 8,
    ensures
        final(out)@ == old(out)@ + spec_pad(dec_digits(n as int), w as int),
{
    let c = count_digits(n);
    if c < w {
        let mut k: usize = 0;
        while k < w - c
            invariant
                k <= w - c,
                out@ == old(out)@ + Seq::new(k as nat, |i: int| '0'),
            decreases w - c - k,
        {
            out.append(digit_str(0));
            proof {
                assert(out@ =~= old(out)@ + Seq::new((k + 1) as nat, |i: int| '0'));
            }
            k = k + 1;
        }
    }
    push_digits(n, out);
    proof {
        assert(out@ =~= old(out)@ + spec_pad(dec_digits(n as int), w as int));
    }
}

/// Appends a signed number zero-padded to width `w`, the sign included in
/// the width.
pub fn push_i_pad(n: i64, w: usize, out: &mut String)
    requires
        1 <= w <= 8,
        n > i64::MIN,
    ensures
        final(out)@ == old(out)@ + spec_i_pad(n as int, w as int),
{
    if n >= 0 {
        push_u_pad(n as u64, w, out);
    } else {
        proof {
            reveal_strlit("-");
        }
        out.append("-");
        push_u_pad((-n) as u64, w - 1, out);
        proof {
            assert(out@ =~= old(out)@ + spec_i_pad(n as int, w as int));
        }
    }
}

/// The `YYYY-MM` label of a calendar month.
pub open spec fn spec_month_label(y: int, m: int) -> Seq<char> {
    spec_i_pad(y, 4) + seq!['-'] + spec_i_pad(m, 2)
}

/// The `YYYY-MM-DD` label of a calendar day.
pub open spec fn spec_date_label(y: int, m: int, d: int) -> Seq<char> {
    spec_month_label(y, m) + seq!['-'] + spec_i_pad(d, 2)
}

/// The `YYYY-Www` label of a week.
pub open spec fn spec_week_label(y: int, wk: int) -> Seq<char> {
    spec_i_pad(y, 4) + seq!['-', 'W'] + spec_i_pad(wk, 2)
}

pub fn month_label(y: i32, m: u32) -> (r: String)
    ensures
        r@ == spec_month_label(y as int, m as int),
{
    let mut out = String::new();
    push_i_pad(y as i64, 4, &mut out);
    proof {
        reveal_strlit("-");
    }
    out.append("-");
    push_u_pad(m as u64, 2, &mut out);
    proof {
        assert(out@ =~= spec_month_label(y as int, m as int));
    }
    out
}

pub fn date_label(y: i32, m: u32, d: u32) -> (r: String)
    ensures
        r@ == spec_date_label(y as int, m as int, d as int),
{
    let mut out = month_label(y, m);
    proof {
        reveal_strlit("-");
    }
    out.append("-");
    push_u_pad(d as u64, 2, &mut out);
    proof {
        assert(out@ =~= spec_date_label(y as int, m as int, d as int));
    }
    out
}

pub fn week_label(y: i32, wk: u32) -> (r: String)
    ensures
        r@ == spec_week_label(y as int, wk as int),
{
    let mut out = String::new();
    push_i_pad(y as i64, 4, &mut out);
    proof {
        reveal_strlit("-W");
    }
    out.append("-W");
    push_u_pad(wk as u64, 2, &mut out);
    proof {
        assert(out@ =~= spec_week_label(y as int, wk as int));
    }
    out
}

} // verus!
