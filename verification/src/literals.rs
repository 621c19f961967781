//! Scalar literal classification: signed 64-bit integer literals (parsed and
//! proved against a decimal-value spec), the floating-point literal grammar,
//! and case-insensitive boolean keywords.

use vstd::prelude::*;

use crate::chars::find_char;

verus! {

/// An ASCII decimal digit.
pub open spec fn is_digit(c: char) -> bool {
    '0' <= c && c <= '9'
}

/// The numeric value of a decimal digit.
pub open spec fn digit_val(c: char) -> int {
    c as int - 48
}

pub open spec fn all_digits(s: Seq<char>) -> bool {
    forall|i: int| 0 <= i < s.len() ==> is_digit(#[trigger] s[i])
}

/// The value of a string of decimal digits.
pub open spec fn digits_val(s: Seq<char>) -> int
    decreases s.len(),
{
    if s.len() == 0 {
        0
    } else {
        digits_val(s.take(s.len() - 1)) * 10 + digit_val(s[s.len() - 1])
    }
}

/// The sign and the remainder of a numeric literal: a leading `+` or `-` is
/// the sign; anything else leaves the literal unsigned.
pub open spec fn int_parts(s: Seq<char>) -> (bool, Seq<char>) {
    if s.len() > 0 && (s[0] == '+' || s[0] == '-') {
        (s[0] == '-', s.skip(1))
    } else {
        (false, s)
    }
}

/// The signed value a numeric literal denotes.
pub open spec fn i64_value(s: Seq<char>) -> int {
    let p = int_parts(s);
    if p.0 {
        -digits_val(p.1)
    } else {
        digits_val(p.1)
    }
}

/// Whether `s` is a signed 64-bit integer literal: an optional sign, one or
/// more decimal digits, and a value within range.
pub open spec fn is_i64_literal(s: Seq<char>) -> bool {
    let p = int_parts(s);
    p.1.len() > 0 && all_digits(p.1) && i64::MIN <= i64_value(s) <= i64::MAX
}

proof fn lemma_digits_val_nonneg(s: Seq<char>)
    requires
        all_digits(s),
    ensures
        digits_val(s) >= 0,
    decreases s.len(),
{
    if s.len() > 0 {
        let pre = s.take(s.len() - 1);
        assert(all_digits(pre));
        lemma_digits_val_nonneg(pre);
        assert(digits_val(pre) * 10 >= 0) by (nonlinear_arith)
            requires
                digits_val(pre) >= 0,
        ;
    }
}

/// A prefix of a digit string has a value no greater than the whole.
proof fn lemma_digits_val_mono(s: Seq<char>, i: int)
    requires
        all_digits(s),
        0 <= i <= s.len(),
    ensures
        digits_val(s.take(i)) <= digits_val(s),
        digits_val(s.take(i)) >= 0,
    decreases s.len() - i,
{
    assert(all_digits(s.take(i)));
    lemma_digits_val_nonneg(s.take(i));
    if i < s.len() {
        lemma_digits_val_mono(s, i + 1);
        let t = s.take(i + 1);
        assert(t.take(i) =~= s.take(i));
        let v = digits_val(s.take(i));
        assert(digits_val(t) == v * 10 + digit_val(s[i]));
        assert(v * 10 >= v) by (nonlinear_arith)
            requires
                v >= 0,
        ;
        assert(digit_val(s[i]) >= 0);
    } else {
        assert(s.take(i) =~= s);
    }
}

/// Parse a signed 64-bit integer literal; `None` exactly when `v` is not one.
pub fn parse_i64(v: &Vec<char>) -> (r: Option<i64>)
    ensures
        match r {
            Some(x) => is_i64_literal(v@) && x as int == i64_value(v@),
            None => !is_i64_literal(v@),
        },
{
    let ghost whole = v@;
    let signed: bool = v.len() > 0 && (v[0] == '+' || v[0] == '-');
    let neg: bool = v.len() > 0 && v[0] == '-';
    let start: usize = if signed {
        1
    } else {
        0
    };
    let ghost ds = int_parts(whole).1;
    proof {
        assert(ds =~= whole.skip(start as int));
    }
    if start == v.len() {
        // no digits at all
        return None;
    }
    let cap: u64 = 9223372036854775808;
    let mut mag: u64 = 0;
    let mut i: usize = start;
    while i < v.len()
        invariant
            start <= i <= v@.len(),
            whole == v@,
            ds == whole.skip(start as int),
            ds == int_parts(whole).1,
            start == (if int_parts(whole).0 || (whole.len() > 0 && whole[0] == '+') {
                1int
            } else {
                0int
            }),
            neg == int_parts(whole).0,
            start < v@.len(),
            all_digits(ds.take(i - start)),
            mag as int == digits_val(ds.take(i - start)),
            mag <= cap,
            cap == 9223372036854775808,
        decreases v@.len() - i,
    {
        let c = v[i];
        proof {
            assert(ds[i - start] == whole[i as int]);
        }
        if !('0' <= c && c <= '9') {
            proof {
                assert(!is_digit(ds[i - start]));
                assert(!all_digits(ds));
            }
            return None;
        }
        let d: u64 = (c as u32 as u64) - 48;
        proof {
            assert(d as int == digit_val(c));
            assert(d <= 9);
        }
        if mag > (cap - d) / 10 {
            proof {
                let cd = (cap - d) as int;
                vstd::arithmetic::div_mod::lemma_fundamental_div_mod(cd, 10);
                assert(cd % 10 < 10 && cd % 10 >= 0) by {
                    vstd::arithmetic::div_mod::lemma_mod_bound(cd, 10);
                }
                assert(mag as int >= cd / 10 + 1);
                assert((mag as int) * 10 >= (cd / 10 + 1) * 10) by (nonlinear_arith)
                    requires
                        mag as int >= cd / 10 + 1,
                ;
                assert((cd / 10 + 1) * 10 == (cd / 10) * 10 + 10);
                assert((cd / 10) * 10 + 10 > cd);
                let k = (i - start) as int;
                assert(digits_val(ds.take(k + 1)) == digits_val(ds.take(k + 1).take(k)) * 10
                    + digit_val(ds[k]));
                assert(ds.take(k + 1).take(k) =~= ds.take(k));
                assert(digits_val(ds.take(k + 1)) == (mag as int) * 10 + (d as int));
                assert(digits_val(ds.take(k + 1)) > cap as int);
                if is_i64_literal(whole) {
                    lemma_digits_val_mono(ds, k + 1);
                    assert(digits_val(ds) >= digits_val(ds.take(k + 1)));
                    assert(digits_val(ds) > cap as int);
                    if neg {
                        assert(i64_value(whole) == -digits_val(ds));
                        assert(i64_value(whole) < -(cap as int));
                        assert(i64::MIN as int == -(cap as int));
                    } else {
                        assert(i64_value(whole) == digits_val(ds));
                        assert(i64::MAX as int == cap as int - 1);
                    }
                    assert(false);
                }
            }
            return None;
        }
        proof {
            let cd = (cap - d) as int;
            vstd::arithmetic::div_mod::lemma_fundamental_div_mod(cd, 10);
            assert(cd % 10 < 10 && cd % 10 >= 0) by {
                vstd::arithmetic::div_mod::lemma_mod_bound(cd, 10);
            }
            assert((mag as int) * 10 <= (cd / 10) * 10) by (nonlinear_arith)
                requires
                    mag as int <= cd / 10,
            ;
            assert((cd / 10) * 10 <= cd);
            let k = (i - start) as int;
            assert(ds.take(k + 1).take(k) =~= ds.take(k));
            assert(digits_val(ds.take(k + 1)) == (mag as int) * 10 + (d as int));
        }
        mag = mag * 10 + d;
        i = i + 1;
    }
    proof {
        assert(ds.take(ds.len() as int) =~= ds);
        assert(mag as int == digits_val(ds));
        assert(all_digits(ds));
        assert(ds.len() > 0);
    }
    if neg {
        if mag == cap {
            Some(i64::MIN)
        } else {
            Some(-(mag as i64))
        }
    } else {
        if mag == cap {
            proof {
                assert(i64_value(whole) == mag as int);
                assert(!(i64_value(whole) <= i64::MAX));
            }
            None
        } else {
            Some(mag as i64)
        }
    }
}

/// Powers of ten.
pub open spec fn pow10(k: nat) -> nat
    decreases k,
{
    if k == 0 {
        1
    } else {
        10 * pow10((k - 1) as nat)
    }
}

/// The canonical decimal representation of `n`: digits only, the right value,
/// and no leading zero.
pub open spec fn is_canon_digits(s: Seq<char>, n: int) -> bool {
    s.len() > 0 && all_digits(s) && digits_val(s) == n && (s.len() > 1 ==> s[0] != '0')
}

/// The canonical decimal representation of a signed value: a minus sign and
/// the magnitude's digits for a negative value, the digits alone otherwise.
pub open spec fn is_decimal_i64(s: Seq<char>, i: int) -> bool {
    if i < 0 {
        s.len() >= 2 && s[0] == '-' && is_canon_digits(s.skip(1), -i)
    } else {
        is_canon_digits(s, i)
    }
}

/// Prepending a digit multiplies its value by ten to the length.
proof fn lemma_digits_val_cons(c: char, s: Seq<char>)
    requires
        is_digit(c),
        all_digits(s),
    ensures
        digits_val(seq![c] + s) == digit_val(c) * pow10(s.len()) + digits_val(s),
    decreases s.len(),
{
    let t = seq![c] + s;
    if s.len() == 0 {
        assert(t =~= seq![c]);
        assert(t.len() == 1);
        assert(t.take(t.len() - 1) =~= Seq::<char>::empty());
        assert(digits_val(Seq::<char>::empty()) == 0);
        assert(t[t.len() - 1] == c);
        assert(digits_val(t) == digit_val(c));
        assert(pow10(s.len()) == 1);
        assert(digits_val(s) == 0);
        assert(digit_val(c) * 1 == digit_val(c)) by (nonlinear_arith);
    } else {
        let pre = s.take(s.len() - 1);
        assert(all_digits(pre));
        lemma_digits_val_cons(c, pre);
        assert(t.take(t.len() - 1) =~= seq![c] + pre);
        assert(t[t.len() - 1] == s[s.len() - 1]);
        assert(digits_val(t) == digits_val(seq![c] + pre) * 10 + digit_val(s[s.len() - 1]));
        let dc = digit_val(c);
        let p = pow10(pre.len()) as int;
        let b = digits_val(pre);
        assert((dc * p + b) * 10 == dc * (10 * p) + b * 10) by (nonlinear_arith);
        assert(pow10(s.len()) == 10 * pow10(pre.len()));
        assert(digits_val(s) == b * 10 + digit_val(s[s.len() - 1]));
        assert(digits_val(t) == (dc * p + b) * 10 + digit_val(s[s.len() - 1]));
        assert(digits_val(t) == dc * (10 * p) + b * 10 + digit_val(s[s.len() - 1]));
        assert(digits_val(t) == digit_val(c) * pow10(s.len()) + digits_val(s));
    }
}

/// The canonical decimal digits of an unsigned value.
pub fn u64_to_dec(n: u64) -> (r: Vec<char>)
    ensures
        is_canon_digits(r@, n as int),
{
    if n == 0 {
        let mut out: Vec<char> = Vec::new();
        out.push('0');
        proof {
            assert(out@ =~= seq!['0']);
            assert(out@.len() == 1);
            assert(out@.take(out@.len() - 1) =~= Seq::<char>::empty());
            assert(digits_val(Seq::<char>::empty()) == 0);
            assert(out@[out@.len() - 1] == '0');
            assert(digit_val('0') == 0);
            assert(digits_val(out@) == 0);
        }
        return out;
    }
    let mut out: Vec<char> = Vec::new();
    let mut m: u64 = n;
    proof {
        assert(out@ =~= Seq::<char>::empty());
        assert(pow10(0) == 1);
        assert(digits_val(out@) == 0);
        assert((m as int) * 1 == m as int) by (nonlinear_arith);
    }
    while m > 0
        invariant
            all_digits(out@),
            n as int == (m as int) * pow10(out@.len()) + digits_val(out@),
            0 <= digits_val(out@),
            m == 0 ==> out@.len() > 0,
            out@.len() > 0 && m == 0 ==> out@[0] != '0',
            m > 0 && out@.len() > 0 ==> out@[0] != '0' || true,
            out@.len() == 0 ==> m > 0,
        decreases m,
    {
        let ghost old_out = out@;
        let ghost old_m = m as int;
        let d8: u8 = (m % 10) as u8;
        let c: char = (48 + d8) as char;
        proof {
            assert(48 <= 48 + d8 <= 57);
            assert(c as u32 == (48 + d8) as u32);
            assert('0' <= c && c <= '9');
            assert(digit_val(c) == (old_m % 10));
        }
        out.insert(0, c);
        m = m / 10;
        proof {
            assert(out@ =~= seq![c] + old_out);
            lemma_digits_val_cons(c, old_out);
            vstd::arithmetic::div_mod::lemma_fundamental_div_mod(old_m, 10);
            let mq = old_m / 10;
            let mr = old_m % 10;
            let p = pow10(old_out.len()) as int;
            assert(old_m * p == (10 * mq + mr) * p);
            assert((10 * mq + mr) * p == mq * (10 * p) + mr * p) by (nonlinear_arith);
            assert(pow10(out@.len()) == 10 * pow10(old_out.len()));
            if m == 0 {
                assert(mr == old_m);
                assert(mr >= 1);
                assert(out@[0] == c);
                assert(c != '0');
            }
        }
    }
    proof {
        assert(n as int == digits_val(out@));
        if out@.len() > 1 {
            assert(out@[0] != '0');
        }
    }
    out
}
pub open spec fn ci_eq(c: char, l: char) -> bool {
    c == l || (c as u32) + 32 == (l as u32)
}

/// ASCII-case-insensitive match of `s` against a lowercase keyword.
pub open spec fn matches_ci(s: Seq<char>, kw: Seq<char>) -> bool {
    s.len() == kw.len() && forall|i: int| 0 <= i < s.len() ==> ci_eq(#[trigger] s[i], kw[i])
}

pub open spec fn spec_true_kw() -> Seq<char> {
    seq!['t', 'r', 'u', 'e']
}

pub open spec fn spec_false_kw() -> Seq<char> {
    seq!['f', 'a', 'l', 's', 'e']
}

/// Whether `s` is the boolean literal `true`, ASCII-case-insensitively.
pub open spec fn is_true_literal(s: Seq<char>) -> bool {
    matches_ci(s, spec_true_kw())
}

/// Whether `s` is the boolean literal `false`, ASCII-case-insensitively.
pub open spec fn is_false_literal(s: Seq<char>) -> bool {
    matches_ci(s, spec_false_kw())
}

/// ASCII-case-insensitive comparison against a lowercase keyword.
fn eq_ci(v: &Vec<char>, kw: &Vec<char>) -> (r: bool)
    ensures
        r == matches_ci(v@, kw@),
{
    if v.len() != kw.len() {
        return false;
    }
    let mut i: usize = 0;
    while i < v.len()
        invariant
            0 <= i <= v@.len(),
            v@.len() == kw@.len(),
            forall|j: int| 0 <= j < i ==> ci_eq(#[trigger] v@[j], kw@[j]),
        decreases v@.len() - i,
    {
        let c = v[i];
        let l = kw[i];
        let ci = c == l || (c as u32 as u64) + 32 == (l as u32 as u64);
        proof {
            assert(ci == ci_eq(v@[i as int], kw@[i as int]));
        }
        if !ci {
            proof {
                assert(!ci_eq(v@[i as int], kw@[i as int]));
            }
            return false;
        }
        i = i + 1;
    }
    true
}

pub fn is_true_lit(v: &Vec<char>) -> (r: bool)
    ensures
        r == is_true_literal(v@),
{
    let mut kw: Vec<char> = Vec::new();
    kw.push('t');
    kw.push('r');
    kw.push('u');
    kw.push('e');
    proof {
        assert(kw@ =~= spec_true_kw());
    }
    eq_ci(v, &kw)
}

pub fn is_false_lit(v: &Vec<char>) -> (r: bool)
    ensures
        r == is_false_literal(v@),
{
    let mut kw: Vec<char> = Vec::new();
    kw.push('f');
    kw.push('a');
    kw.push('l');
    kw.push('s');
    kw.push('e');
    proof {
        assert(kw@ =~= spec_false_kw());
    }
    eq_ci(v, &kw)
}

/// Index of the first exponent marker (`e` or `E`).
pub open spec fn find_exp(s: Seq<char>) -> Option<int>
    decreases s.len(),
{
    if s.len() == 0 {
        None
    } else if s[0] == 'e' || s[0] == 'E' {
        Some(0)
    } else {
        crate::chars::opt_shift(find_exp(s.skip(1)), 1)
    }
}

fn find_exp_exec(v: &Vec<char>) -> (r: Option<usize>)
    ensures
        match r {
            Some(i) => find_exp(v@) == Some(i as int) && i < v@.len(),
            None => find_exp(v@) is None,
        },
{
    let ghost s = v@;
    let mut i: usize = 0;
    proof {
        assert(s.skip(0) =~= s);
    }
    while i < v.len()
        invariant
            0 <= i <= s.len(),
            s == v@,
            find_exp(s) == crate::chars::opt_shift(find_exp(s.skip(i as int)), i as int),
        decreases s.len() - i,
    {
        let c = v[i];
        if c == 'e' || c == 'E' {
            return Some(i);
        }
        proof {
            assert(s.skip(i as int).skip(1) =~= s.skip(i + 1));
        }
        i = i + 1;
    }
    None
}

/// Whether `s` is a valid mantissa: digits, or digits around a single point
/// with at least one digit on some side.
pub open spec fn is_mantissa(s: Seq<char>) -> bool {
    match find_char(s, '.') {
        None => s.len() > 0 && all_digits(s),
        Some(i) => {
            let a = s.take(i);
            let b = s.skip(i + 1);
            all_digits(a) && all_digits(b) && (a.len() > 0 || b.len() > 0) && find_char(b, '.')
                is None
        },
    }
}

/// Whether `s` is a valid exponent body: an optional sign and one or more
/// digits.
pub open spec fn is_exp_part(s: Seq<char>) -> bool {
    let t = if s.len() > 0 && (s[0] == '+' || s[0] == '-') {
        s.skip(1)
    } else {
        s
    };
    t.len() > 0 && all_digits(t)
}

/// Whether `s` (sign already stripped) is one of the keywords `inf`,
/// `infinity`, `nan`, ASCII-case-insensitively.
pub open spec fn is_float_keyword(s: Seq<char>) -> bool {
    ||| matches_ci(s, seq!['i', 'n', 'f'])
    ||| matches_ci(s, seq!['i', 'n', 'f', 'i', 'n', 'i', 't', 'y'])
    ||| matches_ci(s, seq!['n', 'a', 'n'])
}

/// Whether `s` is a 64-bit floating-point literal: an optional sign, then a
/// keyword (`inf`, `infinity`, `nan`) or a mantissa with an optional
/// exponent.
pub open spec fn is_f64_literal(s: Seq<char>) -> bool {
    let t = int_parts(s).1;
    is_float_keyword(t) || (match find_exp(t) {
        None => is_mantissa(t),
        Some(i) => is_mantissa(t.take(i)) && is_exp_part(t.skip(i + 1)),
    })
}

fn all_digits_exec(v: &Vec<char>) -> (r: bool)
    ensures
        r == all_digits(v@),
{
    let mut i: usize = 0;
    while i < v.len()
        invariant
            0 <= i <= v@.len(),
            forall|j: int| 0 <= j < i ==> is_digit(#[trigger] v@[j]),
        decreases v@.len() - i,
    {
        let c = v[i];
        if !('0' <= c && c <= '9') {
            proof {
                assert(!is_digit(v@[i as int]));
            }
            return false;
        }
        i = i + 1;
    }
    true
}

fn is_mantissa_exec(v: &Vec<char>) -> (r: bool)
    ensures
        r == is_mantissa(v@),
{
    match crate::chars::find(v, '.') {
        None => {
            proof {
                crate::chars::lemma_find_char_props(v@, '.');
            }
            v.len() > 0 && all_digits_exec(v)
        },
        Some(i) => {
            let n = v.len();
            proof {
                crate::chars::lemma_find_char_props(v@, '.');
                assert(i < n);
            }
            let a = crate::chars::sub_chars(v, 0, i);
            let b = crate::chars::sub_chars(v, i + 1, n);
            proof {
                assert(a@ =~= v@.take(i as int));
                assert(b@ =~= v@.skip(i + 1));
            }
            let b_no_dot = match crate::chars::find(&b, '.') {
                None => true,
                Some(_) => false,
            };
            all_digits_exec(&a) && all_digits_exec(&b) && (a.len() > 0 || b.len() > 0) && b_no_dot
        },
    }
}

fn is_exp_part_exec(v: &Vec<char>) -> (r: bool)
    ensures
        r == is_exp_part(v@),
{
    let start: usize = if v.len() > 0 && (v[0] == '+' || v[0] == '-') {
        1
    } else {
        0
    };
    let t = crate::chars::sub_chars(v, start, v.len());
    proof {
        assert(t@ =~= (if v@.len() > 0 && (v@[0] == '+' || v@[0] == '-') {
            v@.skip(1)
        } else {
            v@
        }));
    }
    t.len() > 0 && all_digits_exec(&t)
}

fn is_float_keyword_exec(v: &Vec<char>) -> (r: bool)
    ensures
        r == is_float_keyword(v@),
{
    let mut inf: Vec<char> = Vec::new();
    inf.push('i');
    inf.push('n');
    inf.push('f');
    let mut infinity: Vec<char> = Vec::new();
    infinity.push('i');
    infinity.push('n');
    infinity.push('f');
    infinity.push('i');
    infinity.push('n');
    infinity.push('i');
    infinity.push('t');
    infinity.push('y');
    let mut nan: Vec<char> = Vec::new();
    nan.push('n');
    nan.push('a');
    nan.push('n');
    proof {
        assert(inf@ =~= seq!['i', 'n', 'f']);
        assert(infinity@ =~= seq!['i', 'n', 'f', 'i', 'n', 'i', 't', 'y']);
        assert(nan@ =~= seq!['n', 'a', 'n']);
    }
    eq_ci(v, &inf) || eq_ci(v, &infinity) || eq_ci(v, &nan)
}

/// Whether `v` is a 64-bit floating-point literal.
pub fn is_float_literal(v: &Vec<char>) -> (r: bool)
    ensures
        r == is_f64_literal(v@),
{
    let start: usize = if v.len() > 0 && (v[0] == '+' || v[0] == '-') {
        1
    } else {
        0
    };
    let t = crate::chars::sub_chars(v, start, v.len());
    proof {
        assert(t@ =~= int_parts(v@).1);
    }
    if is_float_keyword_exec(&t) {
        return true;
    }
    match find_exp_exec(&t) {
        None => is_mantissa_exec(&t),
        Some(i) => {
            let n = t.len();
            proof {
                assert(i < n);
            }
            let m = crate::chars::sub_chars(&t, 0, i);
            let e = crate::chars::sub_chars(&t, i + 1, n);
            proof {
                assert(m@ =~= t@.take(i as int));
                assert(e@ =~= t@.skip(i + 1));
            }
            is_mantissa_exec(&m) && is_exp_part_exec(&e)
        },
    }
}

} // verus!
