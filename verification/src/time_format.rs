//! Reformatting of a raw decimal hour count into a signed `hours:minutes`
//! display string.
//!
//! The raw field arrives as free text such as `" -1,5 "`. Space characters
//! are discarded, commas are read as decimal periods, and the remainder must
//! be a plain signed decimal numeral. The output is `sign hours:minutes`
//! with the minutes zero-padded to two digits, for example `"- 1:30"`.
//!
//! Minutes are computed from the first 27 fractional digits, rounding half
//! away from zero; later digits cannot change the first 27-digit
//! approximation by more than one unit in the last place and are ignored.

use vstd::prelude::*;

verus! {

/// Failure of the time-delta formatter.
#[derive(Clone, Copy, Debug, PartialEq, Eq, Structural)]
pub enum FormatError {
    /// The field does not spell a decimal number the formatter accepts.
    NotANumber,
}

/// An ASCII decimal digit.
pub open spec fn is_digit(c: char) -> bool {
    '0' <= c && c <= '9'
}

/// Numeric value of an ASCII decimal digit.
pub open spec fn digit_val(c: char) -> nat {
    (c as int - '0' as int) as nat
}

/// State of the left-to-right scan of a raw time field.
pub struct NumScan {
    /// No rejected character so far.
    pub ok: bool,
    /// A leading sign has been consumed.
    pub saw_sign: bool,
    /// The consumed sign was a minus.
    pub neg: bool,
    /// At least one digit has been consumed.
    pub saw_digit: bool,
    /// The decimal separator has been consumed.
    pub saw_dot: bool,
    /// Value of the integer-part digits consumed so far.
    pub int_val: nat,
    /// Fractional digits consumed so far.
    pub frac: Seq<char>,
}

pub open spec fn scan_init() -> NumScan {
    NumScan {
        ok: true,
        saw_sign: false,
        neg: false,
        saw_digit: false,
        saw_dot: false,
        int_val: 0,
        frac: Seq::empty(),
    }
}

/// One step of the scan. Spaces are discarded wherever they stand; a comma
/// is read exactly as a period; a sign is accepted only before any digit or
/// separator; a second decimal separator or any other character rejects the
/// field.
pub open spec fn scan_step(st: NumScan, c: char) -> NumScan {
    if c == ' ' {
        st
    } else if !st.ok {
        st
    } else if c == '+' || c == '-' {
        if st.saw_sign || st.saw_digit || st.saw_dot {
            NumScan { ok: false, ..st }
        } else {
            NumScan { saw_sign: true, neg: c == '-', ..st }
        }
    } else if c == ',' || c == '.' {
        if st.saw_dot {
            NumScan { ok: false, ..st }
        } else {
            NumScan { saw_dot: true, ..st }
        }
    } else if is_digit(c) {
        if st.saw_dot {
            NumScan { saw_digit: true, frac: st.frac.push(c), ..st }
        } else {
            NumScan { saw_digit: true, int_val: st.int_val * 10 + digit_val(c), ..st }
        }
    } else {
        NumScan { ok: false, ..st }
    }
}

/// State after scanning the first `n` characters of `s`.
pub open spec fn scan_prefix(s: Seq<char>, n: int) -> NumScan
    decreases n,
{
    if n <= 0 {
        scan_init()
    } else {
        scan_step(scan_prefix(s, n - 1), s[n - 1])
    }
}

/// State after scanning all of `s`.
pub open spec fn scan(s: Seq<char>) -> NumScan {
    scan_prefix(s, s.len() as int)
}

/// The field spells a decimal number: no character was rejected and at
/// least one digit appeared.
pub open spec fn numeric(s: Seq<char>) -> bool {
    scan(s).ok && scan(s).saw_digit
}

/// The integer part of the field fits the machine word the formatter
/// renders hours from.
pub open spec fn hours_in_range(s: Seq<char>) -> bool {
    scan(s).int_val <= u64::MAX
}

/// The field is accepted by the formatter.
pub open spec fn time_ok(s: Seq<char>) -> bool {
    numeric(s) && hours_in_range(s)
}

pub open spec fn pow10(n: nat) -> nat
    decreases n,
{
    if n == 0 {
        1
    } else {
        10 * pow10((n - 1) as nat)
    }
}

/// Value of a string of decimal digits.
pub open spec fn digits_val(s: Seq<char>) -> nat
    decreases s.len(),
{
    if s.len() == 0 {
        0
    } else {
        digits_val(s.drop_last()) * 10 + digit_val(s.last())
    }
}

/// How many fractional digits take part in the minute computation.
pub const FRAC_DIGITS: usize = 27;

/// The fractional digits that take part in the minute computation.
pub open spec fn frac_kept(frac: Seq<char>) -> Seq<char> {
    if frac.len() <= FRAC_DIGITS { frac } else { frac.take(FRAC_DIGITS as int) }
}

/// Minutes shown for a fractional part `0.d1 d2 ...`: sixty times the
/// fraction, rounded half away from zero.
pub open spec fn minutes_of(frac: Seq<char>) -> nat {
    let f = frac_kept(frac);
    (120 * digits_val(f) + pow10(f.len())) / (2 * pow10(f.len()))
}

pub open spec fn digit_char(d: nat) -> char {
    if d == 0 { '0' }
    else if d == 1 { '1' }
    else if d == 2 { '2' }
    else if d == 3 { '3' }
    else if d == 4 { '4' }
    else if d == 5 { '5' }
    else if d == 6 { '6' }
    else if d == 7 { '7' }
    else if d == 8 { '8' }
    else { '9' }
}

/// Decimal numeral of `n`, without leading zeros.
pub open spec fn dec_digits(n: nat) -> Seq<char>
    decreases n,
{
    if n < 10 {
        seq![digit_char(n)]
    } else {
        dec_digits(n / 10).push(digit_char(n % 10))
    }
}

/// Decimal numeral of `n`, zero-padded to at least two digits.
pub open spec fn two_digits(n: nat) -> Seq<char> {
    if n < 10 { seq!['0', digit_char(n)] } else { dec_digits(n) }
}

/// The rendered display string: sign, space, hours, colon, padded minutes.
pub open spec fn render_time(neg: bool, hours: nat, minutes: nat) -> Seq<char> {
    (if neg { seq!['-'] } else { seq!['+'] }) + seq![' '] + dec_digits(hours) + seq![':']
        + two_digits(minutes)
}

/// What the formatter returns on an accepted field.
pub open spec fn format_spec(s: Seq<char>) -> Seq<char> {
    let st = scan(s);
    render_time(st.neg, st.int_val, minutes_of(st.frac))
}

/// The scanned integer part never shrinks as the scan proceeds.
proof fn lemma_int_val_monotone(s: Seq<char>, k: int, m: int)
    requires
        0 <= k <= m,
    ensures
        scan_prefix(s, k).int_val <= scan_prefix(s, m).int_val,
    decreases m - k,
{
    if k < m {
        lemma_int_val_monotone(s, k, m - 1);
        let st = scan_prefix(s, m - 1);
        assert(st.int_val <= scan_step(st, s[m - 1]).int_val);
    }
}

/// A digit string's value is below the power of ten of its length.
proof fn lemma_digits_val_bound(s: Seq<char>)
    requires
        forall|i: int| 0 <= i < s.len() ==> is_digit(#[trigger] s[i]),
    ensures
        digits_val(s) < pow10(s.len()),
    decreases s.len(),
{
    if s.len() > 0 {
        lemma_digits_val_bound(s.drop_last());
        assert(digit_val(s.last()) <= 9);
    }
}

/// Every character the scan stores as a fractional digit is a digit.
proof fn lemma_frac_all_digits(s: Seq<char>, n: int)
    requires
        0 <= n,
    ensures
        forall|i: int|
            0 <= i < scan_prefix(s, n).frac.len() ==> is_digit(
                #[trigger] scan_prefix(s, n).frac[i],
            ),
    decreases n,
{
    if n > 0 {
        lemma_frac_all_digits(s, n - 1);
        let st = scan_prefix(s, n - 1);
        let st2 = scan_prefix(s, n);
        if st2.frac != st.frac {
            assert(st2.frac == st.frac.push(s[n - 1]));
            assert(forall|i: int|
                0 <= i < st.frac.len() ==> is_digit(#[trigger] st2.frac[i]));
        }
    }
}

proof fn lemma_pow10_monotone(a: nat, b: nat)
    requires
        a <= b,
    ensures
        pow10(a) <= pow10(b),
        pow10(a) >= 1,
    decreases b,
{
    if a < b {
        lemma_pow10_monotone(a, (b - 1) as nat);
    } else if a > 0 {
        lemma_pow10_monotone((a - 1) as nat, (b - 1) as nat);
    }
}

proof fn lemma_pow10_27()
    ensures
        pow10(27) == 1000000000000000000000000000,
{
    reveal_with_fuel(pow10, 28);
    assert(pow10(27) == 1000000000000000000000000000);
}

/// Sixty times a proper fraction, rounded, is at most sixty.
proof fn lemma_minutes_le_60(frac: Seq<char>)
    requires
        forall|i: int| 0 <= i < frac.len() ==> is_digit(#[trigger] frac[i]),
    ensures
        minutes_of(frac) <= 60,
{
    let f = frac_kept(frac);
    assert(forall|i: int| 0 <= i < f.len() ==> is_digit(#[trigger] f[i]));
    lemma_digits_val_bound(f);
    let nv = digits_val(f);
    let d = pow10(f.len());
    lemma_pow10_monotone(0, f.len());
    assert(120 * nv + d < 122 * d) by (nonlinear_arith)
        requires
            nv < d,
            d >= 1,
    ;
    assert((120 * nv + d) / (2 * d) <= 60) by (nonlinear_arith)
        requires
            120 * nv + d < 122 * d,
            d >= 1,
    ;
}

fn digit_str(d: u8) -> (r: &'static str)
    requires
        d < 10,
    ensures
        r@ == seq![digit_char(d as nat)],
{
    proof {
        reveal_strlit("0");
        reveal_strlit("1");
        reveal_strlit("2");
        reveal_strlit("3");
        reveal_strlit("4");
        reveal_strlit("5");
        reveal_strlit("6");
        reveal_strlit("7");
        reveal_strlit("8");
        reveal_strlit("9");
        assert("0"@ =~= seq![digit_char(0)]);
        assert("1"@ =~= seq![digit_char(1)]);
        assert("2"@ =~= seq![digit_char(2)]);
        assert("3"@ =~= seq![digit_char(3)]);
        assert("4"@ =~= seq![digit_char(4)]);
        assert("5"@ =~= seq![digit_char(5)]);
        assert("6"@ =~= seq![digit_char(6)]);
        assert("7"@ =~= seq![digit_char(7)]);
        assert("8"@ =~= seq![digit_char(8)]);
        assert("9"@ =~= seq![digit_char(9)]);
    }
    match d {
        0 => "0",
        1 => "1",
        2 => "2",
        3 => "3",
        4 => "4",
        5 => "5",
        6 => "6",
        7 => "7",
        8 => "8",
        _ => "9",
    }
}

/// Appends the decimal numeral of `n` to `out`.
fn append_dec(out: &mut String, n: u64)
    ensures
        final(out)@ == old(out)@ + dec_digits(n as nat),
    decreases n,
{
    if n >= 10 {
        append_dec(out, n / 10);
    }
    out.append(digit_str((n % 10) as u8));
    proof {
        if n >= 10 {
            assert(dec_digits(n as nat) == dec_digits(n as nat / 10).push(
                digit_char(n as nat % 10),
            ));
            assert(old(out)@ + dec_digits(n as nat / 10) + seq![digit_char(n as nat % 10)] =~= old(
                out,
            )@ + dec_digits(n as nat));
        } else {
            assert(old(out)@ + seq![digit_char(n as nat)] =~= old(out)@ + dec_digits(n as nat));
        }
    }
}

/// Reformats a raw decimal hour count as a signed `hours:minutes` string.
///
/// Spaces are discarded and commas read as periods; the rest must be a
/// signed decimal numeral. The sign of the output follows the written sign,
/// so `-0` renders as `"- 0:00"`.
pub fn format_time(time: &str) -> (r: Result<String, FormatError>)
    ensures
        r is Ok <==> time_ok(time@),
        r is Ok ==> r->Ok_0@ == format_spec(time@),
        r is Err ==> r->Err_0 == FormatError::NotANumber,
{
    let ghost s = time@;
    let n = time.unicode_len();
    let mut i: usize = 0;
    let mut ok = true;
    let mut saw_sign = false;
    let mut neg = false;
    let mut saw_digit = false;
    let mut saw_dot = false;
    let mut int_val: u64 = 0;
    let mut frac_val: u128 = 0;
    let mut frac_len: usize = 0;
    while i < n
        invariant
            i <= n,
            s == time@,
            n == s.len(),
            scan_prefix(s, i as int) == (NumScan {
                ok: ok,
                saw_sign: saw_sign,
                neg: neg,
                saw_digit: saw_digit,
                saw_dot: saw_dot,
                int_val: int_val as nat,
                frac: scan_prefix(s, i as int).frac,
            }),
            frac_len <= i,
            frac_len == scan_prefix(s, i as int).frac.len(),
            frac_val == digits_val(frac_kept(scan_prefix(s, i as int).frac)),
            frac_val < pow10(if frac_len <= FRAC_DIGITS { frac_len as nat } else { 27 }),
        decreases n - i,
    {
        let ghost st = scan_prefix(s, i as int);
        let ghost st2 = scan_prefix(s, i as int + 1);
        let c = time.get_char(i);
        proof {
            assert(st2 == scan_step(st, c));
            lemma_frac_all_digits(s, i as int);
            lemma_pow10_27();
        }
        if c == ' ' {
            // discarded
        } else if !ok {
            // already rejected; the scan state no longer changes
        } else if c == '+' || c == '-' {
            if saw_sign || saw_digit || saw_dot {
                ok = false;
            } else {
                saw_sign = true;
                neg = c == '-';
            }
        } else if c == ',' || c == '.' {
            if saw_dot {
                ok = false;
            } else {
                saw_dot = true;
            }
        } else if '0' <= c && c <= '9' {
            saw_digit = true;
            let d = (c as u32 - '0' as u32) as u8;
            if saw_dot {
                proof {
                    assert(st2.frac == st.frac.push(c));
                    if st.frac.len() < 27 {
                        assert(frac_kept(st2.frac) =~= frac_kept(st.frac).push(c));
                        assert(frac_kept(st.frac).push(c).drop_last() =~= frac_kept(st.frac));
                        lemma_pow10_monotone((frac_len + 1) as nat, 27);
                    } else {
                        assert(frac_kept(st2.frac) =~= frac_kept(st.frac));
                    }
                }
                if frac_len < FRAC_DIGITS {
                    frac_val = frac_val * 10 + d as u128;
                }
                frac_len = frac_len + 1;
            } else {
                proof {
                    lemma_int_val_monotone(s, i as int + 1, s.len() as int);
                }
                if int_val > (u64::MAX - d as u64) / 10 {
                    // the integer part cannot be rendered; the field is
                    // rejected as unreadable
                    return Err(FormatError::NotANumber);
                }
                int_val = int_val * 10 + d as u64;
            }
        } else {
            ok = false;
        }
        i = i + 1;
    }
    let ghost stf = scan(s);
    if !(ok && saw_digit) {
        return Err(FormatError::NotANumber);
    }
    proof {
        lemma_frac_all_digits(s, s.len() as int);
        lemma_minutes_le_60(stf.frac);
        lemma_pow10_27();
    }
    let klen: usize = if frac_len > FRAC_DIGITS { FRAC_DIGITS } else { frac_len };
    let mut d: u128 = 1;
    let mut k: usize = 0;
    while k < klen
        invariant
            k <= klen,
            klen <= 27,
            d == pow10(k as nat),
        decreases klen - k,
    {
        proof {
            lemma_pow10_monotone((k + 1) as nat, 27);
            lemma_pow10_27();
        }
        d = d * 10;
        k = k + 1;
    }
    proof {
        assert(klen as nat == frac_kept(stf.frac).len());
        lemma_pow10_monotone(klen as nat, 27);
    }
    let minutes: u128 = (120 * frac_val + d) / (2 * d);
    proof {
        assert(minutes == minutes_of(stf.frac));
    }
    let m: u64 = minutes as u64;
    let mut out = String::new();
    proof {
        reveal_strlit("- ");
        reveal_strlit("+ ");
        reveal_strlit(":");
        reveal_strlit("0");
    }
    if neg {
        out.append("- ");
    } else {
        out.append("+ ");
    }
    append_dec(&mut out, int_val);
    out.append(":");
    if m < 10 {
        out.append("0");
    }
    append_dec(&mut out, m);
    proof {
        assert(out@ =~= format_spec(s));
    }
    Ok(out)
}

/// `s` with every comma replaced by a period.
pub open spec fn commas_to_periods(s: Seq<char>) -> Seq<char> {
    s.map_values(|c: char| if c == ',' { '.' } else { c })
}

proof fn lemma_scan_commas(s: Seq<char>, n: int)
    requires
        n <= s.len(),
    ensures
        scan_prefix(commas_to_periods(s), n) == scan_prefix(s, n),
    decreases n,
{
    if n > 0 {
        lemma_scan_commas(s, n - 1);
        assert(commas_to_periods(s)[n - 1] == (if s[n - 1] == ',' {
            '.'
        } else {
            s[n - 1]
        }));
    }
}

/// The decimal separator may be written as a comma or as a period: the
/// formatter accepts the field either way and renders the same string.
pub proof fn lemma_comma_period_equiv(s: Seq<char>)
    ensures
        time_ok(commas_to_periods(s)) == time_ok(s),
        time_ok(s) ==> format_spec(commas_to_periods(s)) == format_spec(s),
{
    assert(commas_to_periods(s).len() == s.len());
    lemma_scan_commas(s, s.len() as int);
}

proof fn lemma_scan_sign(s: Seq<char>, n: int)
    requires
        0 <= n <= s.len(),
        forall|i: int| 0 <= i < s.len() ==> s[i] != '+' && s[i] != '-',
    ensures
        scan_prefix(seq!['-'] + s, n + 1) == (NumScan {
            saw_sign: true,
            neg: true,
            ..scan_prefix(s, n)
        }),
        !scan_prefix(s, n).saw_sign,
        !scan_prefix(s, n).neg,
    decreases n,
{
    let t = seq!['-'] + s;
    if n == 0 {
        assert(t[0] == '-');
        assert(scan_prefix(t, 1) == scan_step(scan_init(), '-'));
    } else {
        lemma_scan_sign(s, n - 1);
        assert(t[n] == s[n - 1]);
    }
}

/// Writing a leading minus before an unsigned numeral changes only the
/// sign character of the rendered string: hours and minutes are identical.
pub proof fn lemma_sign_flip(s: Seq<char>)
    requires
        forall|i: int| 0 <= i < s.len() ==> s[i] != '+' && s[i] != '-',
    ensures
        time_ok(seq!['-'] + s) == time_ok(s),
        time_ok(s) ==> format_spec(s)[0] == '+',
        time_ok(s) ==> format_spec(seq!['-'] + s)[0] == '-',
        time_ok(s) ==> format_spec(seq!['-'] + s).skip(1) == format_spec(s).skip(1),
{
    let t = seq!['-'] + s;
    assert(t.len() == s.len() + 1);
    lemma_scan_sign(s, s.len() as int);
    let st = scan(s);
    assert(scan(t) == (NumScan { saw_sign: true, neg: true, ..st }));
    if time_ok(s) {
        assert(format_spec(s) == render_time(false, st.int_val, minutes_of(st.frac)));
        assert(format_spec(t) == render_time(true, st.int_val, minutes_of(st.frac)));
        assert(format_spec(s)[0] == '+');
        assert(format_spec(t)[0] == '-');
        assert(format_spec(t).skip(1) =~= format_spec(s).skip(1));
    }
}

} // verus!
