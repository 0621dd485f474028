//! Decimal text for the integer scalars: formatting written by the encoder
//! and the standard textual-parse grammar the decoder applies to items.

use vstd::prelude::*;
use vstd::string::{StrSliceExecFns, StringExecFns};

use crate::error::{Error, ErrorV};
use crate::text::item_ok;

verus! {

pub open spec fn is_digit(c: char) -> bool {
    '0' <= c && c <= '9'
}

pub open spec fn digit_val(c: char) -> nat {
    (c as nat - '0' as nat) as nat
}

pub open spec fn digit_char(d: nat) -> char {
    if d == 0 {
        '0'
    } else if d == 1 {
        '1'
    } else if d == 2 {
        '2'
    } else if d == 3 {
        '3'
    } else if d == 4 {
        '4'
    } else if d == 5 {
        '5'
    } else if d == 6 {
        '6'
    } else if d == 7 {
        '7'
    } else if d == 8 {
        '8'
    } else {
        '9'
    }
}

/// A non-empty run of decimal digits.
pub open spec fn is_digits(s: Seq<char>) -> bool {
    s.len() > 0 && forall|i: int| 0 <= i < s.len() ==> is_digit(#[trigger] s[i])
}

/// The number a digit run denotes.
pub open spec fn digits_val(s: Seq<char>) -> nat
    decreases s.len(),
{
    if s.len() == 0 {
        0
    } else {
        digits_val(s.drop_last()) * 10 + digit_val(s.last())
    }
}

/// The canonical decimal text of `n`: no sign, no leading zeros.
pub open spec fn dec_digits(n: nat) -> Seq<char>
    decreases n,
{
    if n < 10 {
        seq![digit_char(n)]
    } else {
        dec_digits(n / 10).push(digit_char(n % 10))
    }
}

/// The canonical decimal text of a signed number.
pub open spec fn int_text(i: int) -> Seq<char> {
    if i < 0 {
        seq!['-'] + dec_digits((-i) as nat)
    } else {
        dec_digits(i as nat)
    }
}

/// The text the standard unsigned parse accepts: an optional leading plus
/// sign, then digits.
pub open spec fn strip_plus(s: Seq<char>) -> Seq<char> {
    if s.len() > 0 && s[0] == '+' {
        s.drop_first()
    } else {
        s
    }
}

pub open spec fn uint_grammar(s: Seq<char>) -> bool {
    is_digits(strip_plus(s))
}

pub open spec fn uint_val(s: Seq<char>) -> nat {
    digits_val(strip_plus(s))
}

/// The text the standard signed parse accepts: an optional sign, then digits.
pub open spec fn strip_sign(s: Seq<char>) -> Seq<char> {
    if s.len() > 0 && (s[0] == '+' || s[0] == '-') {
        s.drop_first()
    } else {
        s
    }
}

pub open spec fn sint_grammar(s: Seq<char>) -> bool {
    is_digits(strip_sign(s))
}

pub open spec fn sint_val(s: Seq<char>) -> int {
    if s.len() > 0 && s[0] == '-' {
        -(digits_val(s.drop_first()) as int)
    } else {
        digits_val(strip_sign(s)) as int
    }
}

pub proof fn lemma_digits_val_take(s: Seq<char>, i: int)
    requires
        0 <= i < s.len(),
    ensures
        digits_val(s.take(i + 1)) == digits_val(s.take(i)) * 10 + digit_val(s[i]),
{
    assert(s.take(i + 1).drop_last() =~= s.take(i));
    assert(s.take(i + 1).last() == s[i]);
}

/// A digit run's value only grows as more digits are appended.
pub proof fn lemma_digits_val_mono(s: Seq<char>, i: int)
    requires
        0 <= i <= s.len(),
    ensures
        digits_val(s.take(i)) <= digits_val(s),
    decreases s.len() - i,
{
    if i < s.len() {
        lemma_digits_val_take(s, i);
        lemma_digits_val_mono(s, i + 1);
        assert(digits_val(s.take(i)) <= digits_val(s.take(i)) * 10 + digit_val(s[i]));
    } else {
        assert(s.take(i) =~= s);
    }
}

/// The canonical decimal text denotes the number it was made from, consists
/// of digits, and survives the tokenizer as an item.
pub proof fn lemma_dec_digits(n: nat)
    ensures
        is_digits(dec_digits(n)),
        digits_val(dec_digits(n)) == n,
        item_ok(dec_digits(n)),
        dec_digits(n)[0] != '+' && dec_digits(n)[0] != '-',
    decreases n,
{
    if n < 10 {
        assert(digits_val(dec_digits(n)) == digits_val(
            dec_digits(n).drop_last(),
        ) * 10 + digit_val(dec_digits(n).last()));
        assert(dec_digits(n).drop_last() =~= Seq::<char>::empty());
    } else {
        lemma_dec_digits(n / 10);
        let d = dec_digits(n / 10);
        let w = d.push(digit_char(n % 10));
        assert(w.drop_last() =~= d);
        assert(w.last() == digit_char(n % 10));
        assert(digits_val(w) == n / 10 * 10 + n % 10);
        assert(n / 10 * 10 + n % 10 == n) by (nonlinear_arith);
        assert(forall|i: int| 0 <= i < w.len() ==> is_digit(#[trigger] w[i]));
    }
}

/// The signed decimal text parses back to the number it was made from.
pub proof fn lemma_int_text(i: int)
    ensures
        sint_grammar(int_text(i)),
        sint_val(int_text(i)) == i,
        uint_grammar(int_text(i)) || i < 0,
        i >= 0 ==> uint_val(int_text(i)) == i,
        item_ok(int_text(i)),
        forall|k: int|
            0 <= k < int_text(i).len() ==> #[trigger] int_text(i)[k] == '-' || is_digit(
                int_text(i)[k],
            ),
{
    if i < 0 {
        lemma_dec_digits((-i) as nat);
        let t = int_text(i);
        assert(t.drop_first() =~= dec_digits((-i) as nat));
        assert(t[0] == '-');
        assert(item_ok(t)) by {
            assert(forall|k: int| 0 <= k < t.len() ==> #[trigger] t[k] != '\t' && !crate::text::esc_run_char(t[k]));
        }
    } else {
        lemma_dec_digits(i as nat);
        let t = int_text(i);
        assert(strip_sign(t) =~= t);
        assert(strip_plus(t) =~= t);
    }
}

/// Parses a run of decimal digits starting at character `start`, exactly as
/// the standard unsigned integer parse does once the sign is consumed:
/// rejecting an empty or non-digit run and a value above the `u64` range.
fn parse_digits(s: &str, start: usize) -> (r: Result<u64, Error>)
    requires
        start as int <= s@.len(),
    ensures
        is_digits(s@.skip(start as int)) && digits_val(s@.skip(start as int)) <= u64::MAX ==> (
        r matches Ok(n) && n == digits_val(s@.skip(start as int))),
        r matches Err(e) ==> e.deep_view() is StringParse,
        is_digits(s@.skip(start as int)) && digits_val(s@.skip(start as int)) > u64::MAX ==> (
        r matches Err(e) && e.deep_view() == ErrorV::StringParse(
            "number too large to fit in target type"@,
        )),
        !is_digits(s@.skip(start as int)) ==> r is Err,
{
    let ghost t = s@.skip(start as int);
    let n = s.unicode_len();
    if start >= n {
        return Err(Error::StringParse(String::from_str("cannot parse integer from empty string")));
    }
    let mut acc: u64 = 0;
    let mut i: usize = start;
    while i < n
        invariant
            start <= i <= n,
            n == s@.len() <= usize::MAX,
            t == s@.skip(start as int),
            forall|k: int| start <= k < i ==> is_digit(#[trigger] s@[k]),
            acc == digits_val(t.take(i - start)),
            digits_val(t.take(i - start)) <= u64::MAX,
        decreases n - i,
    {
        let c = s.get_char(i);
        if c < '0' || c > '9' {
            proof {
                assert(t[i - start] == s@[i as int]);
                assert(!is_digit(t[i - start]));
            }
            return Err(Error::StringParse(String::from_str("invalid digit found in string")));
        }
        let d: u64 = (c as u32 - 48) as u64;
        proof {
            assert(t[i - start] == s@[i as int]);
            assert(d == digit_val(t[i - start]));
            lemma_digits_val_take(t, i - start);
        }
        if acc > u64::MAX / 10 || 10 * acc > u64::MAX - d {
            proof {
                assert(digits_val(t.take(i - start + 1)) > u64::MAX) by {
                    assert(acc > u64::MAX / 10 ==> acc * 10 > u64::MAX) by (nonlinear_arith);
                }
                lemma_digits_val_mono(t, i - start + 1);
            }
            return Err(Error::StringParse(
                String::from_str("number too large to fit in target type"),
            ));
        }
        acc = 10 * acc + d;
        i = i + 1;
    }
    proof {
        assert(t.take(i - start) =~= t);
        assert(is_digits(t));
    }
    Ok(acc)
}

/// The standard unsigned parse: an optional `+`, then digits, within range.
pub fn parse_u64_text(s: &str) -> (r: Result<u64, Error>)
    ensures
        uint_grammar(s@) && uint_val(s@) <= u64::MAX ==> (r matches Ok(n) && n == uint_val(s@)),
        r matches Err(e) ==> e.deep_view() is StringParse,
        !(uint_grammar(s@) && uint_val(s@) <= u64::MAX) ==> r is Err,
{
    let n = s.unicode_len();
    if n == 0 {
        return Err(Error::StringParse(String::from_str("cannot parse integer from empty string")));
    }
    let c = s.get_char(0);
    if c == '+' {
        proof {
            assert(strip_plus(s@) =~= s@.skip(1));
        }
        let r = parse_digits(s, 1);
        proof {
            if !(uint_grammar(s@) && uint_val(s@) <= u64::MAX) {
                assert(!(is_digits(s@.skip(1)) && digits_val(s@.skip(1)) <= u64::MAX));
            }
        }
        r
    } else {
        proof {
            assert(strip_plus(s@) =~= s@.skip(0));
        }
        parse_digits(s, 0)
    }
}

/// The standard signed parse: an optional sign, then digits, within the
/// range of `i64`.
pub fn parse_i64_text(s: &str) -> (r: Result<i64, Error>)
    ensures
        sint_grammar(s@) && i64::MIN <= sint_val(s@) <= i64::MAX ==> (r matches Ok(n) && n
            == sint_val(s@)),
        r matches Err(e) ==> e.deep_view() is StringParse,
        !(sint_grammar(s@) && i64::MIN <= sint_val(s@) <= i64::MAX) ==> r is Err,
{
    let n = s.unicode_len();
    if n == 0 {
        return Err(Error::StringParse(String::from_str("cannot parse integer from empty string")));
    }
    let c = s.get_char(0);
    let neg = c == '-';
    let mag = if c == '-' || c == '+' {
        proof {
            assert(strip_sign(s@) =~= s@.skip(1));
        }
        parse_digits(s, 1)
    } else {
        proof {
            assert(strip_sign(s@) =~= s@.skip(0));
        }
        parse_digits(s, 0)
    };
    match mag {
        Err(e) => {
            proof {
                if sint_grammar(s@) && i64::MIN <= sint_val(s@) <= i64::MAX {
                    assert(is_digits(strip_sign(s@)));
                    assert(digits_val(strip_sign(s@)) <= u64::MAX);
                }
            }
            Err(e)
        },
        Ok(m) => {
            if neg {
                if m > 0x8000_0000_0000_0000u64 {
                    Err(Error::StringParse(
                        String::from_str("number too small to fit in target type"),
                    ))
                } else {
                    Ok((-(m as i128)) as i64)
                }
            } else {
                if m > 0x7fff_ffff_ffff_ffffu64 {
                    Err(Error::StringParse(
                        String::from_str("number too large to fit in target type"),
                    ))
                } else {
                    Ok(m as i64)
                }
            }
        },
    }
}

/// Appends the canonical decimal digits of `n`.
pub fn fmt_u64_into(out: &mut String, n: u64)
    ensures
        final(out)@ == old(out)@ + dec_digits(n as nat),
    decreases n,
{
    if n >= 10 {
        fmt_u64_into(out, n / 10);
    }
    let d = n % 10;
    match d {
        0 => out.append("0"),
        1 => out.append("1"),
        2 => out.append("2"),
        3 => out.append("3"),
        4 => out.append("4"),
        5 => out.append("5"),
        6 => out.append("6"),
        7 => out.append("7"),
        8 => out.append("8"),
        _ => out.append("9"),
    }
    proof {
        reveal_strlit("0");
        reveal_strlit("1");
        reveal_strlit("2");
        reveal_strlit("3");
        reveal_strlit("4");
        reveal_strlit("5");
        reveal_strlit("6");
        reveal_strlit("7");
        reveal_strlit("8");
        reveal_strlit("9");
        if n < 10 {
            assert(final(out)@ =~= old(out)@ + dec_digits(n as nat));
        } else {
            assert(final(out)@ =~= old(out)@ + dec_digits(n as nat));
        }
    }
}

/// Appends the canonical decimal text of `v`, sign included.
pub fn fmt_i64_into(out: &mut String, v: i64)
    ensures
        final(out)@ == old(out)@ + int_text(v as int),
{
    if v < 0 {
        out.append("-");
        let m: u64 = (-(v as i128)) as u64;
        fmt_u64_into(out, m);
        proof {
            reveal_strlit("-");
            assert(final(out)@ =~= old(out)@ + int_text(v as int));
        }
    } else {
        fmt_u64_into(out, v as u64);
    }
}

} // verus!
