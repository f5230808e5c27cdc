//! Character classes and numeric literals.
//!
//! The scanner needs three character classes (whitespace, digits, the dot)
//! and two literal forms: integer numerals, parsed here to an `i32`, and
//! float numerals, whose spelling is validated here while their value is
//! left to the caller's float unit.

use vstd::prelude::*;

verus! {

/// The Unicode White_Space set, the same set `char::is_whitespace` tests.
pub open spec fn is_space(c: char) -> bool {
    let u = c as u32;
    (9 <= u && u <= 13) || u == 32 || u == 0x85 || u == 0xA0 || u == 0x1680
        || (0x2000 <= u && u <= 0x200A) || u == 0x2028 || u == 0x2029 || u == 0x202F
        || u == 0x205F || u == 0x3000
}

#[verifier::when_used_as_spec(is_space)]
pub fn space(c: char) -> (r: bool)
    ensures
        r == is_space(c),
{
    let u = c as u32;
    (9 <= u && u <= 13) || u == 32 || u == 0x85 || u == 0xA0 || u == 0x1680
        || (0x2000 <= u && u <= 0x200A) || u == 0x2028 || u == 0x2029 || u == 0x202F
        || u == 0x205F || u == 0x3000
}

/// An ASCII decimal digit.
pub open spec fn is_digit(c: char) -> bool {
    48 <= c as u32 && c as u32 <= 57
}

#[verifier::when_used_as_spec(is_digit)]
pub fn digit(c: char) -> (r: bool)
    ensures
        r == is_digit(c),
{
    let u = c as u32;
    48 <= u && u <= 57
}

/// The numeric value of a digit character.
pub open spec fn digit_val(c: char) -> int {
    c as u32 - 48
}

pub open spec fn all_digits(s: Seq<char>) -> bool {
    forall|i: int| 0 <= i < s.len() ==> is_digit(#[trigger] s[i])
}

/// The value of a plain digit string, most significant digit first.
pub open spec fn digits_val(s: Seq<char>) -> int
    decreases s.len(),
{
    if s.len() == 0 {
        0
    } else {
        digits_val(s.drop_last()) * 10 + digit_val(s.last())
    }
}

pub proof fn lemma_digits_val_nonneg(s: Seq<char>)
    requires
        all_digits(s),
    ensures
        digits_val(s) >= 0,
    decreases s.len(),
{
    if s.len() > 0 {
        assert(all_digits(s.drop_last()));
        lemma_digits_val_nonneg(s.drop_last());
    }
}

/// A digit string is worth at least any of its prefixes.
pub proof fn lemma_digits_val_prefix(s: Seq<char>, i: int)
    requires
        all_digits(s),
        0 <= i <= s.len(),
    ensures
        digits_val(s.take(i)) <= digits_val(s),
    decreases s.len() - i,
{
    if i < s.len() {
        lemma_digits_val_prefix(s, i + 1);
        assert(s.take(i + 1).drop_last() =~= s.take(i));
        assert(all_digits(s.take(i)));
        lemma_digits_val_nonneg(s.take(i));
        assert(digits_val(s.take(i + 1)) == digits_val(s.take(i)) * 10 + digit_val(s.take(
            i + 1,
        ).last()));
    } else {
        assert(s.take(i) =~= s);
    }
}

/// The exact value of a signed decimal numeral, or `None` where the string
/// is not one (empty, a bare sign, or a non-digit after the sign).
pub open spec fn int_lit_val(s: Seq<char>) -> Option<int> {
    if s.len() > 0 && (s[0] == '-' || s[0] == '+') {
        if s.len() > 1 && all_digits(s.skip(1)) {
            if s[0] == '-' {
                Some(-digits_val(s.skip(1)))
            } else {
                Some(digits_val(s.skip(1)))
            }
        } else {
            None
        }
    } else {
        if s.len() > 0 && all_digits(s) {
            Some(digits_val(s))
        } else {
            None
        }
    }
}

/// What `i32` parsing of a decimal numeral yields: the numeral's value when
/// it is well formed and within range, `None` otherwise.
pub open spec fn parse_int_spec(s: Seq<char>) -> Option<i32> {
    match int_lit_val(s) {
        Some(v) => if i32::MIN <= v <= i32::MAX {
            Some(v as i32)
        } else {
            None
        },
        None => None,
    }
}

/// Parses a signed decimal numeral into an `i32`, rejecting malformed
/// spellings and values outside the `i32` range.
#[verifier::loop_isolation(false)]
pub fn parse_int(v: &Vec<char>) -> (r: Option<i32>)
    ensures
        r == parse_int_spec(v@),
{
    let n = v.len();
    if n == 0 {
        return None;
    }
    let c0 = v[0];
    let neg = c0 == '-';
    let signed = neg || c0 == '+';
    let start: usize = if signed {
        1
    } else {
        0
    };
    if n == start {
        return None;
    }
    let ghost body = if signed {
        v@.skip(1)
    } else {
        v@
    };
    let limit: u64 = if neg {
        2147483648
    } else {
        2147483647
    };
    let mut acc: u64 = 0;
    let mut i: usize = start;
    while i < n
        invariant
            start <= i <= n,
            n == v@.len(),
            start == if signed {
                1int
            } else {
                0int
            },
            signed ==> n >= 2,
            body == if signed {
                v@.skip(1)
            } else {
                v@
            },
            limit == if neg {
                2147483648u64
            } else {
                2147483647u64
            },
            all_digits(body.take(i - start)),
            acc == digits_val(body.take(i - start)),
            acc <= limit,
        decreases n - i,
    {
        let c = v[i];
        if !digit(c) {
            assert(body[i - start] == v@[i as int]);
            assert(!all_digits(body));
            return None;
        }
        proof {
            assert(body.take(i + 1 - start).drop_last() =~= body.take(i - start));
            assert(body.take(i + 1 - start).last() == v@[i as int]);
        }
        let d = (c as u32) - 48;
        acc = acc * 10 + (d as u64);
        assert(acc == digits_val(body.take(i + 1 - start)));
        if acc > limit {
            // Every longer prefix is worth at least this much, so the value
            // cannot fit in an i32 whichever digits follow.
            proof {
                if all_digits(body) {
                    lemma_digits_val_prefix(body, i + 1 - start);
                    assert(digits_val(body) >= acc);
                }
            }
            return None;
        }
        i += 1;
    }
    proof {
        assert(body.take(i - start) =~= body);
    }
    if neg {
        if acc == 2147483648 {
            Some(i32::MIN)
        } else {
            Some(-(acc as i32))
        }
    } else {
        Some(acc as i32)
    }
}

/// The digit character for a value below ten.
pub open spec fn digit_char_of(d: int) -> char {
    if d == 0 {
        '0'
    } else if d == 1 {
        '1'
    } else if d == 2 {
        '2'
    } else if d == 3 {
        '3'
    } else if d == 4 {
        '4'
    } else if d == 5 {
        '5'
    } else if d == 6 {
        '6'
    } else if d == 7 {
        '7'
    } else if d == 8 {
        '8'
    } else {
        '9'
    }
}

fn digit_char(d: u32) -> (c: char)
    requires
        d < 10,
    ensures
        c == digit_char_of(d as int),
{
    if d == 0 {
        '0'
    } else if d == 1 {
        '1'
    } else if d == 2 {
        '2'
    } else if d == 3 {
        '3'
    } else if d == 4 {
        '4'
    } else if d == 5 {
        '5'
    } else if d == 6 {
        '6'
    } else if d == 7 {
        '7'
    } else if d == 8 {
        '8'
    } else {
        '9'
    }
}

/// The canonical digit string of a non-negative value: no sign, no leading
/// zero except for zero itself.
pub open spec fn u_digits(v: nat) -> Seq<char>
    decreases v,
{
    if v < 10 {
        seq![digit_char_of(v as int)]
    } else {
        u_digits(v / 10).push(digit_char_of((v % 10) as int))
    }
}

pub proof fn lemma_u_digits_facts(v: nat)
    ensures
        u_digits(v).len() >= 1,
        all_digits(u_digits(v)),
        digits_val(u_digits(v)) == v,
    decreases v,
{
    if v < 10 {
        assert(u_digits(v).drop_last() =~= Seq::<char>::empty());
        assert(digits_val(u_digits(v)) == digits_val(u_digits(v).drop_last()) * 10 + digit_val(
            u_digits(v).last(),
        ));
        assert(digits_val(u_digits(v).drop_last()) == 0);
        assert(u_digits(v).last() == digit_char_of(v as int));
        assert(digit_val(digit_char_of(v as int)) == v);
    } else {
        lemma_u_digits_facts(v / 10);
        assert(u_digits(v).drop_last() =~= u_digits(v / 10));
        assert(u_digits(v).last() == digit_char_of((v % 10) as int));
        assert(digit_val(digit_char_of((v % 10) as int)) == v % 10);
        assert(digits_val(u_digits(v)) == (v / 10) * 10 + (v % 10));
        assert((v / 10) * 10 + (v % 10) == v) by {
            vstd::arithmetic::div_mod::lemma_fundamental_div_mod(v as int, 10);
        }
        assert(forall|i: int|
            0 <= i < u_digits(v).len() ==> is_digit(#[trigger] u_digits(v)[i])) by {
            assert(forall|i: int|
                0 <= i < u_digits(v / 10).len() ==> u_digits(v)[i] == u_digits(v / 10)[i]);
        }
    }
}

/// The decimal spelling of an integer: a `-` sign for negative values, then
/// the canonical digit string of the magnitude.
pub open spec fn render_int_spec(n: int) -> Seq<char> {
    if n < 0 {
        seq!['-'] + u_digits((-n) as nat)
    } else {
        u_digits(n as nat)
    }
}

fn push_digits(m: u32, out: &mut Vec<char>)
    ensures
        final(out)@ == old(out)@ + u_digits(m as nat),
    decreases m,
{
    if m < 10 {
        out.push(digit_char(m));
        assert(final(out)@ =~= old(out)@ + u_digits(m as nat));
    } else {
        push_digits(m / 10, out);
        out.push(digit_char(m % 10));
        assert(final(out)@ =~= old(out)@ + u_digits(m as nat));
    }
}

/// Renders an integer as its decimal spelling.
pub fn render_int(n: i32) -> (r: Vec<char>)
    ensures
        r@ == render_int_spec(n as int),
{
    let mut out: Vec<char> = Vec::new();
    if n < 0 {
        out.push('-');
        let m: u32 = (-(n as i64)) as u32;
        push_digits(m, &mut out);
        assert(out@ =~= render_int_spec(n as int));
    } else {
        push_digits(n as u32, &mut out);
        assert(out@ =~= render_int_spec(n as int));
    }
    out
}

/// A numeral with any leading sign removed.
pub open spec fn strip_sign(s: Seq<char>) -> Seq<char> {
    if s.len() > 0 && (s[0] == '-' || s[0] == '+') {
        s.skip(1)
    } else {
        s
    }
}

/// A dotted mantissa: digits with exactly one dot among them and at least
/// one digit.
pub open spec fn is_mantissa(b: Seq<char>) -> bool {
    b.len() >= 2 && exists|i: int|
        0 <= i < b.len() && b[i] == '.' && all_digits(#[trigger] b.take(i)) && all_digits(
            b.skip(i + 1),
        )
}

/// An exponent suffix body: an optional sign, then at least one digit.
pub open spec fn is_exp_suffix(t: Seq<char>) -> bool {
    let d = strip_sign(t);
    d.len() >= 1 && all_digits(d)
}

/// A well-formed float numeral: an optional sign, a dotted mantissa, and an
/// optional exponent part (`e` or `E`, an optional sign, digits).  These
/// are exactly the dot-containing spellings that `f32` parsing accepts, per
/// the grammar std documents for `from_str`; a spelling without a dot never
/// reaches this test (it is taken for an integer numeral instead).
pub open spec fn is_float_lit(s: Seq<char>) -> bool {
    let b = strip_sign(s);
    is_mantissa(b) || exists|p: int|
        0 <= p < b.len() && (b[p] == 'e' || b[p] == 'E') && is_mantissa(#[trigger] b.take(p))
            && is_exp_suffix(b.skip(p + 1))
}

/// Decides `is_mantissa` on `v[lo..hi]` by one scan: digits, one dot,
/// digits.
#[verifier::loop_isolation(false)]
fn mantissa_check(v: &Vec<char>, lo: usize, hi: usize) -> (r: bool)
    requires
        lo <= hi <= v@.len(),
    ensures
        r == is_mantissa(v@.subrange(lo as int, hi as int)),
{
    let ghost m = v@.subrange(lo as int, hi as int);
    if hi - lo < 2 {
        return false;
    }
    let mut i: usize = lo;
    while i < hi && !(v[i] == '.')
        invariant
            lo <= i <= hi,
            forall|j: int| 0 <= j < i - lo ==> is_digit(#[trigger] m[j]),
        decreases hi - i,
    {
        if !digit(v[i]) {
            // Neither a digit nor the dot: no split can be well formed.
            proof {
                let bad = i - lo;
                assert(m[bad] == v@[i as int]);
                assert forall|k: int|
                    0 <= k < m.len() && m[k] == '.' implies !(all_digits(#[trigger] m.take(k))
                    && all_digits(m.skip(k + 1))) by {
                    if k > bad {
                        assert(m.take(k)[bad] == m[bad]);
                    } else if k < bad {
                        assert(is_digit(m[k]));
                    } else {
                        assert(m[k] != '.');
                    }
                }
            }
            return false;
        }
        i += 1;
    }
    if i == hi {
        // No dot at all.
        proof {
            assert(forall|k: int| 0 <= k < m.len() ==> is_digit(#[trigger] m[k]));
            assert(forall|k: int| 0 <= k < m.len() ==> m[k] != '.');
        }
        return false;
    }
    let ghost dot = i - lo;
    let mut j: usize = i + 1;
    while j < hi
        invariant
            i + 1 <= j <= hi,
            forall|k: int| 0 <= k < j - lo - dot - 1 ==> is_digit(#[trigger] m.skip(dot + 1)[k]),
        decreases hi - j,
    {
        if !digit(v[j]) {
            // A second dot or stray character after the dot.
            proof {
                let bad = j - lo;
                assert(m[bad] == v@[j as int]);
                assert forall|k: int|
                    0 <= k < m.len() && m[k] == '.' implies !(all_digits(#[trigger] m.take(k))
                    && all_digits(m.skip(k + 1))) by {
                    if k < dot {
                        assert(is_digit(m[k]));
                    } else if k == dot {
                        assert(m.skip(dot + 1)[bad - dot - 1] == m[bad]);
                    } else {
                        assert(m.take(k)[dot] == m[dot]);
                    }
                }
            }
            return false;
        }
        proof {
            assert(m.skip(dot + 1)[j - lo - dot - 1] == m[j - lo]);
            assert(m[j - lo] == v@[j as int]);
        }
        j += 1;
    }
    proof {
        assert(m[dot] == '.');
        assert(all_digits(m.take(dot))) by {
            assert(forall|k: int| 0 <= k < dot ==> m.take(dot)[k] == m[k]);
        }
        assert(all_digits(m.skip(dot + 1))) by {
            assert(forall|k: int|
                0 <= k < m.skip(dot + 1).len() ==> is_digit(#[trigger] m.skip(dot + 1)[k]));
        }
        assert(is_mantissa(m)) by {
            assert(0 <= dot < m.len() && m[dot] == '.' && all_digits(m.take(dot)) && all_digits(
                m.skip(dot + 1),
            ));
        }
    }
    true
}

/// Decides `is_exp_suffix` on `v[lo..]`.
#[verifier::loop_isolation(false)]
fn exp_check(v: &Vec<char>, lo: usize) -> (r: bool)
    requires
        lo <= v@.len(),
    ensures
        r == is_exp_suffix(v@.skip(lo as int)),
{
    let ghost t = v@.skip(lo as int);
    let n = v.len();
    let start: usize = if lo < n && (v[lo] == '+' || v[lo] == '-') {
        lo + 1
    } else {
        lo
    };
    let ghost d = strip_sign(t);
    proof {
        assert(d =~= v@.skip(start as int));
    }
    if n == start {
        return false;
    }
    let mut i: usize = start;
    while i < n
        invariant
            start <= i <= n,
            forall|j: int| 0 <= j < i - start ==> is_digit(#[trigger] d[j]),
        decreases n - i,
    {
        if !digit(v[i]) {
            proof {
                assert(d[i - start] == v@[i as int]);
            }
            return false;
        }
        i += 1;
    }
    proof {
        assert(all_digits(d));
    }
    true
}

/// Decides `is_float_lit` by one scan: strips the sign, splits at the first
/// exponent marker if there is one, and checks the mantissa and exponent
/// parts.
#[verifier::loop_isolation(false)]
pub fn float_lit(v: &Vec<char>) -> (r: bool)
    ensures
        r == is_float_lit(v@),
{
    let n = v.len();
    let start: usize = if n > 0 && (v[0] == '-' || v[0] == '+') {
        1
    } else {
        0
    };
    let ghost b = strip_sign(v@);
    proof {
        assert(b =~= v@.skip(start as int));
    }
    let mut q: usize = start;
    while q < n && !(v[q] == 'e') && !(v[q] == 'E')
        invariant
            start <= q <= n,
            forall|j: int| 0 <= j < q - start ==> !((#[trigger] b[j]) == 'e') && !(b[j] == 'E'),
        decreases n - q,
    {
        q += 1;
    }
    if q == n {
        // No exponent marker: the spelling must be a bare mantissa.
        let r = mantissa_check(v, start, n);
        proof {
            assert(b =~= v@.subrange(start as int, n as int));
            assert(forall|p: int| 0 <= p < b.len() ==> !((#[trigger] b[p]) == 'e' || b[p] == 'E'));
        }
        r
    } else {
        let ghost p = q - start;
        let m_ok = mantissa_check(v, start, q);
        let e_ok = exp_check(v, q + 1);
        let r = m_ok && e_ok;
        proof {
            assert(b[p] == v@[q as int]);
            assert(b[p] == 'e' || b[p] == 'E');
            assert(b.take(p) =~= v@.subrange(start as int, q as int));
            assert(b.skip(p + 1) =~= v@.skip(q + 1));
            // The marker sits in the whole body, so the bare-mantissa form
            // is out whatever the parts look like.
            assert(!is_mantissa(b)) by {
                assert forall|i: int|
                    0 <= i < b.len() && b[i] == '.' implies !(all_digits(#[trigger] b.take(i))
                    && all_digits(b.skip(i + 1))) by {
                    if p > i {
                        assert(b.skip(i + 1)[p - i - 1] == b[p]);
                    } else if p == i {
                        assert(b[i] != '.');
                    } else {
                        assert(b.take(i)[p] == b[p]);
                    }
                }
            }
            if r {
                assert(is_float_lit(v@)) by {
                    assert(0 <= p < b.len() && (b[p] == 'e' || b[p] == 'E') && is_mantissa(
                        b.take(p),
                    ) && is_exp_suffix(b.skip(p + 1)));
                }
            } else {
                // Only the first marker can head a valid split: any later
                // one leaves an earlier marker inside its mantissa part.
                assert(!is_float_lit(v@)) by {
                    assert forall|p2: int|
                        0 <= p2 < b.len() && (b[p2] == 'e' || b[p2] == 'E') implies !(is_mantissa(
                        #[trigger] b.take(p2),
                    ) && is_exp_suffix(b.skip(p2 + 1))) by {
                        if p2 < p {
                            assert(!(b[p2] == 'e') && !(b[p2] == 'E'));
                        } else if p2 > p {
                            let c = b.take(p2);
                            assert(c[p] == b[p]);
                            assert(!is_mantissa(c)) by {
                                assert forall|i: int|
                                    0 <= i < c.len() && c[i] == '.' implies !(all_digits(
                                    #[trigger] c.take(i),
                                ) && all_digits(c.skip(i + 1))) by {
                                    if p > i {
                                        assert(c.skip(i + 1)[p - i - 1] == c[p]);
                                    } else if p == i {
                                        assert(c[i] != '.');
                                    } else {
                                        assert(c.take(i)[p] == c[p]);
                                    }
                                }
                            }
                        }
                    }
                }
            }
        }
        r
    }
}

} // verus!

