use vstd::prelude::*;
use vstd::string::{StrSliceExecFns, StringExecFns};

verus! {

/// The decimal digit character for `d` (meaningful for `0 <= d <= 9`).
pub open spec fn digit_char(d: int) -> char {
    if d == 0 {
        '0'
    } else if d == 1 {
        '1'
    } else if d == 2 {
        '2'
    } else if d == 3 {
        '3'
    } else if d == 4 {
        '4'
    } else if d == 5 {
        '5'
    } else if d == 6 {
        '6'
    } else if d == 7 {
        '7'
    } else if d == 8 {
        '8'
    } else {
        '9'
    }
}

/// Whether `c` is a decimal digit.
pub open spec fn is_dec_digit(c: char) -> bool {
    c == '0' || c == '1' || c == '2' || c == '3' || c == '4' || c == '5' || c == '6' || c == '7'
        || c == '8' || c == '9'
}

/// The value of a decimal digit character (meaningful for digits).
pub open spec fn digit_of(c: char) -> nat {
    if c == '0' {
        0
    } else if c == '1' {
        1
    } else if c == '2' {
        2
    } else if c == '3' {
        3
    } else if c == '4' {
        4
    } else if c == '5' {
        5
    } else if c == '6' {
        6
    } else if c == '7' {
        7
    } else if c == '8' {
        8
    } else {
        9
    }
}

/// The shortest decimal digit string of `n`, most significant first.
pub open spec fn dec_digits(n: nat) -> Seq<char>
    decreases n,
{
    if n < 10 {
        seq![digit_char(n as int)]
    } else {
        dec_digits(n / 10).push(digit_char((n % 10) as int))
    }
}

/// The decimal text of a signed value: a minus sign for negatives,
/// followed by the digits of the magnitude.
pub open spec fn i32_text(v: int) -> Seq<char> {
    if v < 0 {
        seq!['-'] + dec_digits((-v) as nat)
    } else {
        dec_digits(v as nat)
    }
}

/// Every character of `s` is a decimal digit.
pub open spec fn all_digits(s: Seq<char>) -> bool {
    forall|i: int| 0 <= i < s.len() ==> is_dec_digit(#[trigger] s[i])
}

/// The value of a digit string read in base ten (meaningful when
/// `all_digits(s)`).
pub open spec fn digits_val(s: Seq<char>) -> nat
    decreases s.len(),
{
    if s.len() == 0 {
        0
    } else {
        digits_val(s.drop_last()) * 10 + digit_of(s.last())
    }
}

/// Whether `s` is an integer token: an optional sign followed by at
/// least one decimal digit, and nothing else.
pub open spec fn is_int_token(s: Seq<char>) -> bool {
    if s.len() == 0 {
        false
    } else if s[0] == '+' || s[0] == '-' {
        s.len() >= 2 && all_digits(s.skip(1))
    } else {
        all_digits(s)
    }
}

/// The signed value of an integer token (meaningful when
/// `is_int_token(s)`).
pub open spec fn token_val(s: Seq<char>) -> int {
    if s.len() > 0 && s[0] == '-' {
        -(digits_val(s.skip(1)) as int)
    } else if s.len() > 0 && s[0] == '+' {
        digits_val(s.skip(1)) as int
    } else {
        digits_val(s) as int
    }
}

/// Whether `s` is an integer token whose value fits the element type.
pub open spec fn token_i32_ok(s: Seq<char>) -> bool {
    is_int_token(s) && i32::MIN as int <= token_val(s) <= i32::MAX as int
}

/// The digit string of `n` is nonempty, consists of digits only, and
/// reads back as `n`.
pub proof fn lemma_dec_digits(n: nat)
    ensures
        dec_digits(n).len() >= 1,
        all_digits(dec_digits(n)),
        digits_val(dec_digits(n)) == n,
    decreases n,
{
    if n < 10 {
        let one = seq![digit_char(n as int)];
        assert(one.drop_last() =~= Seq::<char>::empty());
        assert(digits_val(one) == digits_val(one.drop_last()) * 10 + digit_of(one.last()));
        assert(digits_val(Seq::<char>::empty()) == 0);
        assert(digit_of(digit_char(n as int)) == n);
    } else {
        lemma_dec_digits(n / 10);
        let d = dec_digits(n / 10);
        let whole = d.push(digit_char((n % 10) as int));
        assert(whole.drop_last() =~= d);
        assert(whole.last() == digit_char((n % 10) as int));
        assert(digit_of(digit_char((n % 10) as int)) == n % 10);
        assert(digits_val(whole) == (n / 10) * 10 + n % 10);
        assert((n / 10) * 10 + n % 10 == n) by {
            vstd::arithmetic::div_mod::lemma_fundamental_div_mod(n as int, 10);
        }
        assert forall|i: int| 0 <= i < whole.len() implies is_dec_digit(#[trigger] whole[i]) by {
            if i < d.len() {
                assert(whole[i] == d[i]);
            }
        }
    }
}

/// Appending digits to a digit string can only grow its value.
pub proof fn lemma_digits_val_prefix_le(s: Seq<char>, k: int)
    requires
        0 <= k <= s.len(),
    ensures
        digits_val(s.take(k)) <= digits_val(s),
    decreases s.len() - k,
{
    if k == s.len() {
        assert(s.take(k) =~= s);
    } else {
        lemma_digits_val_prefix_le(s, k + 1);
        let p = s.take(k + 1);
        assert(p.drop_last() =~= s.take(k));
        assert(digits_val(p) == digits_val(s.take(k)) * 10 + digit_of(p.last()));
        assert(digits_val(s.take(k)) <= digits_val(s.take(k)) * 10 + digit_of(p.last()))
            by (nonlinear_arith);
    }
}

/// Formatting a representable value gives a token that reads back as the
/// same value.
pub proof fn lemma_i32_text_roundtrip(v: int)
    requires
        i32::MIN as int <= v <= i32::MAX as int,
    ensures
        token_i32_ok(i32_text(v)),
        token_val(i32_text(v)) == v,
        i32_text(v).len() >= 1,
{
    if v < 0 {
        lemma_dec_digits((-v) as nat);
        let s = seq!['-'] + dec_digits((-v) as nat);
        assert(s[0] == '-');
        assert(s.skip(1) =~= dec_digits((-v) as nat));
        assert(token_val(s) == v);
    } else {
        lemma_dec_digits(v as nat);
        let s = dec_digits(v as nat);
        assert(is_dec_digit(s[0]));
        assert(s[0] != '+' && s[0] != '-');
        assert(token_val(s) == v);
    }
}

/// Appends the decimal digit `d` to `out`.
/// Relies only on the string layer of the standard library.
fn push_digit(out: &mut String, d: u8)
    requires
        d < 10,
    ensures
        final(out)@ == old(out)@ + seq![digit_char(d as int)],
{
    proof {
        reveal_strlit("0");
        reveal_strlit("1");
        reveal_strlit("2");
        reveal_strlit("3");
        reveal_strlit("4");
        reveal_strlit("5");
        reveal_strlit("6");
        reveal_strlit("7");
        reveal_strlit("8");
        reveal_strlit("9");
    }
    if d == 0 {
        out.append("0");
    } else if d == 1 {
        out.append("1");
    } else if d == 2 {
        out.append("2");
    } else if d == 3 {
        out.append("3");
    } else if d == 4 {
        out.append("4");
    } else if d == 5 {
        out.append("5");
    } else if d == 6 {
        out.append("6");
    } else if d == 7 {
        out.append("7");
    } else if d == 8 {
        out.append("8");
    } else {
        out.append("9");
    }
    proof {
        assert(out@ =~= old(out)@ + seq![digit_char(d as int)]);
    }
}

/// Appends the decimal digits of `n` to `out`, most significant first.
fn push_u64_digits(out: &mut String, n: u64)
    ensures
        final(out)@ == old(out)@ + dec_digits(n as nat),
    decreases n,
{
    if n >= 10 {
        push_u64_digits(out, n / 10);
        push_digit(out, (n % 10) as u8);
        proof {
            assert(out@ =~= old(out)@ + dec_digits(n as nat));
        }
    } else {
        push_digit(out, n as u8);
        proof {
            assert(out@ =~= old(out)@ + dec_digits(n as nat));
        }
    }
}

/// Appends the decimal text of `v` to `out`: a minus sign for negatives,
/// then the digits of the magnitude.
pub fn push_i32_text(out: &mut String, v: i32)
    ensures
        final(out)@ == old(out)@ + i32_text(v as int),
{
    if v < 0 {
        out.append("-");
        proof {
            reveal_strlit("-");
            assert(out@ =~= old(out)@ + seq!['-']);
        }
        let mag: u64 = (-(v as i64)) as u64;
        push_u64_digits(out, mag);
        proof {
            assert(out@ =~= old(out)@ + i32_text(v as int));
        }
    } else {
        push_u64_digits(out, v as u64);
    }
}

/// Reads `s` as a signed decimal integer. Returns the value exactly when
/// `s` is a sign-and-digits token whose value fits the element type.
pub fn parse_i32(s: &str) -> (r: Option<i32>)
    ensures
        match r {
            Some(v) => token_i32_ok(s@) && v as int == token_val(s@),
            None => !token_i32_ok(s@),
        },
{
    let n = s.unicode_len();
    if n == 0 {
        return None;
    }
    let c0 = s.get_char(0);
    let neg = c0 == '-';
    let start: usize = if c0 == '-' || c0 == '+' {
        1
    } else {
        0
    };
    if n == start {
        return None;
    }
    let mut acc: u64 = 0;
    let mut i: usize = start;
    #[verifier::loop_isolation(false)]
    while i < n
        invariant
            start <= i <= n,
            acc <= 0x8000_0000,
            acc as nat == digits_val(s@.subrange(start as int, i as int)),
            forall|k: int| start <= k < i ==> is_dec_digit(#[trigger] s@[k]),
        decreases n - i,
    {
        let c = s.get_char(i);
        let d: u64 = if c == '0' {
            0
        } else if c == '1' {
            1
        } else if c == '2' {
            2
        } else if c == '3' {
            3
        } else if c == '4' {
            4
        } else if c == '5' {
            5
        } else if c == '6' {
            6
        } else if c == '7' {
            7
        } else if c == '8' {
            8
        } else if c == '9' {
            9
        } else {
            proof {
                assert(!is_dec_digit(s@[i as int]));
                if is_int_token(s@) {
                    if start == 1 {
                        assert(s@.skip(1)[i as int - 1] == s@[i as int]);
                        assert(false);
                    } else {
                        assert(false);
                    }
                }
            }
            return None;
        };
        proof {
            let p = s@.subrange(start as int, i as int + 1);
            assert(p.drop_last() =~= s@.subrange(start as int, i as int));
            assert(p.last() == s@[i as int]);
            assert(digit_of(s@[i as int]) == d as nat);
        }
        acc = acc * 10 + d;
        i = i + 1;
        if acc > 0x8000_0000 {
            proof {
                if is_int_token(s@) {
                    let digits = if start == 1 {
                        s@.skip(1)
                    } else {
                        s@
                    };
                    assert(s@.subrange(start as int, i as int) =~= digits.take(
                        i as int - start as int,
                    ));
                    lemma_digits_val_prefix_le(digits, i as int - start);
                    assert(digits_val(digits) > 0x8000_0000);
                    if start == 1 {
                        assert(token_val(s@) == -(digits_val(digits) as int) || token_val(s@)
                            == digits_val(digits) as int);
                    }
                }
            }
            return None;
        }
    }
    proof {
        assert(s@.subrange(start as int, n as int) =~= if start == 1 {
            s@.skip(1)
        } else {
            s@
        });
        if start == 1 {
            assert(s@[0] == '+' || s@[0] == '-');
            assert(s@.len() >= 2);
        } else {
            assert(is_dec_digit(s@[0]));
            assert(s@[0] != '+' && s@[0] != '-');
        }
        assert(is_int_token(s@));
    }
    if neg {
        proof {
            assert(token_val(s@) == -(acc as int));
        }
        Some((-(acc as i64)) as i32)
    } else {
        if acc > 0x7fff_ffff {
            proof {
                assert(token_val(s@) == acc as int);
            }
            return None;
        }
        proof {
            assert(token_val(s@) == acc as int);
        }
        Some(acc as i32)
    }
}

} // verus!
