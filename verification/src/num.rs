//! Decimal numbers as text: parsing stored values into integers, the way the
//! standard integer parsers read them, and rendering line numbers for error
//! messages.

use vstd::prelude::*;

verus! {

/// Whether the character is a decimal digit.
pub open spec fn is_digit(c: char) -> bool {
    48 <= (c as u32) && (c as u32) <= 57
}

/// The numeric value of a digit character.
pub open spec fn digit_val(c: char) -> nat {
    ((c as u32) - 48) as nat
}

/// A non-empty run of decimal digits and nothing else.
pub open spec fn all_digits(s: Seq<char>) -> bool {
    s.len() > 0 && forall|i: int| 0 <= i < s.len() ==> is_digit(s[i])
}

/// The value of a digit run, most significant first.
pub open spec fn dec_val(s: Seq<char>) -> nat
    decreases s.len(),
{
    if s.len() == 0 {
        0
    } else {
        dec_val(s.drop_last()) * 10 + digit_val(s.last())
    }
}

/// What `str::parse::<u64>` accepts and returns: an optional plus sign, then
/// digits, valued within range.
pub open spec fn u64_parse_spec(s: Seq<char>) -> Option<u64> {
    let d = if s.len() > 0 && s[0] == '+' {
        s.skip(1)
    } else {
        s
    };
    if all_digits(d) && dec_val(d) <= u64::MAX {
        Some(dec_val(d) as u64)
    } else {
        None
    }
}

/// What `str::parse::<i64>` accepts and returns: an optional sign, then
/// digits, valued within range.
pub open spec fn i64_parse_spec(s: Seq<char>) -> Option<i64> {
    if s.len() > 0 && s[0] == '-' {
        let d = s.skip(1);
        if all_digits(d) && dec_val(d) <= 0x8000_0000_0000_0000 {
            Some((-(dec_val(d) as int)) as i64)
        } else {
            None
        }
    } else {
        let d = if s.len() > 0 && s[0] == '+' {
            s.skip(1)
        } else {
            s
        };
        if all_digits(d) && dec_val(d) <= i64::MAX {
            Some(dec_val(d) as i64)
        } else {
            None
        }
    }
}

proof fn lemma_dec_val_take_mono(s: Seq<char>, i: int)
    requires
        0 <= i <= s.len(),
    ensures
        dec_val(s.take(i)) <= dec_val(s),
    decreases s.len() - i,
{
    if i < s.len() {
        lemma_dec_val_take_mono(s, i + 1);
        assert(s.take(i + 1).drop_last() =~= s.take(i));
        assert(dec_val(s.take(i + 1)) == dec_val(s.take(i)) * 10 + digit_val(s.take(i + 1).last()));
        assert(dec_val(s.take(i)) <= dec_val(s.take(i)) * 10);
    } else {
        assert(s.take(i) =~= s);
    }
}

/// Reads the digit run of `s` from position `start` on, answering its value
/// when the run is well formed and its value is at most `limit`.
fn parse_digits(s: &str, start: usize, limit: u64) -> (r: Option<u64>)
    requires
        start <= s@.len(),
    ensures
        match r {
            Some(v) => all_digits(s@.skip(start as int)) && v == dec_val(s@.skip(start as int))
                && v <= limit,
            None => !(all_digits(s@.skip(start as int)) && dec_val(s@.skip(start as int))
                <= limit),
        },
{
    let ghost d = s@.skip(start as int);
    let n = s.unicode_len();
    if start == n {
        return None;
    }
    let mut acc: u64 = 0;
    let mut j = start;
    while j < n
        invariant
            start <= j <= n,
            n == s@.len(),
            d == s@.skip(start as int),
            forall|q: int| 0 <= q < j - start ==> is_digit(d[q]),
            acc as nat == dec_val(d.take(j - start)),
            acc <= limit,
        decreases n - j,
    {
        let c = s.get_char(j);
        let cv = c as u32;
        if cv < 48 || cv > 57 {
            proof {
                assert(d[j - start] == s@[j as int]);
                assert(!is_digit(d[j - start]));
            }
            return None;
        }
        let dv = (cv - 48) as u64;
        proof {
            assert(d.take(j - start + 1).drop_last() =~= d.take(j - start));
            assert(d.take(j - start + 1).last() == s@[j as int]);
            assert(dec_val(d.take(j - start + 1)) == dec_val(d.take(j - start)) * 10 + digit_val(
                s@[j as int],
            ));
        }
        let next = match acc.checked_mul(10) {
            Some(t) => t.checked_add(dv),
            None => None,
        };
        match next {
            Some(v) => {
                if v > limit {
                    proof {
                        lemma_dec_val_take_mono(d, j - start + 1);
                    }
                    return None;
                }
                acc = v;
            },
            None => {
                proof {
                    lemma_dec_val_take_mono(d, j - start + 1);
                }
                return None;
            },
        }
        j += 1;
    }
    proof {
        assert(d.take(n - start) =~= d);
    }
    Some(acc)
}

/// Parses as `str::parse::<u64>` does: an optional plus sign and digits.
pub fn parse_u64(s: &str) -> (r: Option<u64>)
    ensures
        r == u64_parse_spec(s@),
{
    let n = s.unicode_len();
    let start: usize = if n > 0 && s.get_char(0) == '+' {
        1
    } else {
        0
    };
    proof {
        if start == 0 {
            assert(s@.skip(0) =~= s@);
        }
    }
    parse_digits(s, start, u64::MAX)
}

/// Parses as `str::parse::<i64>` does: an optional sign and digits.
pub fn parse_i64(s: &str) -> (r: Option<i64>)
    ensures
        r == i64_parse_spec(s@),
{
    let n = s.unicode_len();
    if n > 0 && s.get_char(0) == '-' {
        match parse_digits(s, 1, 0x8000_0000_0000_0000u64) {
            Some(mag) => {
                if mag <= i64::MAX as u64 {
                    Some(-(mag as i64))
                } else {
                    Some(i64::MIN)
                }
            },
            None => None,
        }
    } else {
        let start: usize = if n > 0 && s.get_char(0) == '+' {
            1
        } else {
            0
        };
        proof {
            if start == 0 {
                assert(s@.skip(0) =~= s@);
            }
        }
        match parse_digits(s, start, i64::MAX as u64) {
            Some(v) => Some(v as i64),
            None => None,
        }
    }
}

/// The digit character of a value below ten.
pub open spec fn digit_char(d: nat) -> char {
    if d == 0 {
        '0'
    } else if d == 1 {
        '1'
    } else if d == 2 {
        '2'
    } else if d == 3 {
        '3'
    } else if d == 4 {
        '4'
    } else if d == 5 {
        '5'
    } else if d == 6 {
        '6'
    } else if d == 7 {
        '7'
    } else if d == 8 {
        '8'
    } else {
        '9'
    }
}

/// The decimal rendering of a number, most significant digit first.
pub open spec fn dec_str(n: nat) -> Seq<char>
    decreases n,
{
    if n < 10 {
        seq![digit_char(n)]
    } else {
        dec_str(n / 10).push(digit_char(n % 10))
    }
}

fn digit_str(d: u64) -> (r: &'static str)
    requires
        d < 10,
    ensures
        r@ == seq![digit_char(d as nat)],
{
    let r: &'static str = if d == 0 {
        "0"
    } else if d == 1 {
        "1"
    } else if d == 2 {
        "2"
    } else if d == 3 {
        "3"
    } else if d == 4 {
        "4"
    } else if d == 5 {
        "5"
    } else if d == 6 {
        "6"
    } else if d == 7 {
        "7"
    } else if d == 8 {
        "8"
    } else {
        "9"
    };
    proof {
        reveal_strlit("0");
        reveal_strlit("1");
        reveal_strlit("2");
        reveal_strlit("3");
        reveal_strlit("4");
        reveal_strlit("5");
        reveal_strlit("6");
        reveal_strlit("7");
        reveal_strlit("8");
        reveal_strlit("9");
        assert(r@ =~= seq![digit_char(d as nat)]);
    }
    r
}

/// Renders a number in decimal.
pub fn u64_to_string(n: u64) -> (r: String)
    ensures
        r@ == dec_str(n as nat),
    decreases n,
{
    if n < 10 {
        String::from_str(digit_str(n))
    } else {
        let mut s = u64_to_string(n / 10);
        s.append(digit_str(n % 10));
        proof {
            assert(s@ =~= dec_str((n / 10) as nat).push(digit_char((n % 10) as nat)));
        }
        s
    }
}

} // verus!
