//! Log file names: generation `g` lives in file `<g>.log`.  Only names of
//! that shape are treated as log files; every other name in the directory is
//! ignored.

use vstd::prelude::*;

use crate::codec::{hex_digit, hex_val};
use crate::strutil;

verus! {

/// Every char is a decimal digit.
pub open spec fn all_digits(s: Seq<char>) -> bool {
    forall|j: int| 0 <= j < s.len() ==> 0 <= #[trigger] hex_val(s[j]) < 10
}

/// The value of a decimal digit string.
pub open spec fn digits_val(s: Seq<char>) -> int
    decreases s.len(),
{
    if s.len() == 0 {
        0
    } else {
        digits_val(s.drop_last()) * 10 + hex_val(s.last())
    }
}

/// The canonical decimal spelling of `n`.
pub open spec fn dec_str(n: int) -> Seq<char>
    decreases n,
{
    if n < 10 {
        seq![hex_digit(if n < 0 { 0 } else { n })]
    } else {
        dec_str(n / 10).push(hex_digit(n % 10))
    }
}

/// The name of generation `g`'s log file: `<g>.log`.
pub open spec fn log_name(g: int) -> Seq<char> {
    dec_str(g) + seq!['.', 'l', 'o', 'g']
}

/// The generation a file name stands for: the name must be a non-empty run
/// of decimal digits followed by `.log`, and the digits must fit in a `u64`.
pub open spec fn name_gen(s: Seq<char>) -> Option<int> {
    if s.len() >= 5 && s.subrange(s.len() - 4, s.len() as int) == seq!['.', 'l', 'o', 'g']
        && all_digits(s.subrange(0, s.len() - 4)) && digits_val(s.subrange(0, s.len() - 4))
        <= u64::MAX {
        Some(digits_val(s.subrange(0, s.len() - 4)))
    } else {
        None
    }
}

/// Digit strings have non-negative values, and extending a digit string to
/// the right never decreases its value.
pub proof fn lemma_digits_val_prefix(s: Seq<char>, j: int)
    requires
        all_digits(s),
        0 <= j <= s.len(),
    ensures
        digits_val(s) >= digits_val(s.subrange(0, j)) >= 0,
    decreases s.len() - j,
{
    if j == s.len() {
        assert(s.subrange(0, j) =~= s);
        lemma_digits_val_nonneg(s);
    } else {
        lemma_digits_val_prefix(s, j + 1);
        lemma_digits_val_nonneg(s.subrange(0, j));
        assert(s.subrange(0, j + 1).drop_last() =~= s.subrange(0, j));
        assert(digits_val(s.subrange(0, j + 1)) == digits_val(s.subrange(0, j)) * 10 + hex_val(
            s[j],
        ));
    }
}

/// Digit strings have non-negative values.
pub proof fn lemma_digits_val_nonneg(s: Seq<char>)
    requires
        all_digits(s),
    ensures
        digits_val(s) >= 0,
    decreases s.len(),
{
    if s.len() > 0 {
        assert(all_digits(s.drop_last()));
        lemma_digits_val_nonneg(s.drop_last());
    }
}

/// Format a generation as its decimal digits.
fn dec_str_x(n: u64) -> (r: Vec<char>)
    ensures
        r@ == dec_str(n as int),
        r@.len() >= 1,
    decreases n,
{
    if n < 10 {
        let mut v: Vec<char> = Vec::new();
        v.push(crate::codec::hex_digit_x(n as u32));
        proof {
            assert(v@ =~= dec_str(n as int));
        }
        v
    } else {
        let mut v = dec_str_x(n / 10);
        v.push(crate::codec::hex_digit_x((n % 10) as u32));
        v
    }
}

/// The file name of generation `g`: `<g>.log`.
pub fn log_file_name(g: u64) -> (r: String)
    ensures
        r@ == log_name(g as int),
{
    let mut v = dec_str_x(g);
    v.push('.');
    v.push('l');
    v.push('o');
    v.push('g');
    proof {
        assert(v@ =~= log_name(g as int));
    }
    strutil::string_of(&v)
}

/// The generation a file name stands for, or `None` for any name that is not
/// `<u64>.log`.
pub fn gen_of_filename(name: &str) -> (r: Option<u64>)
    ensures
        match r {
            Some(g) => name_gen(name@) == Some(g as int),
            None => name_gen(name@) is None,
        },
{
    let cs = strutil::chars_of(name);
    let n = cs.len();
    if n < 5 {
        return None;
    }
    if cs[n - 4] != '.' || cs[n - 3] != 'l' || cs[n - 2] != 'o' || cs[n - 1] != 'g' {
        proof {
            if name_gen(name@) is Some {
                let suf = name@.subrange(name@.len() - 4, name@.len() as int);
                assert(name@[name@.len() - 4] == suf[0]);
                assert(name@[name@.len() - 3] == suf[1]);
                assert(name@[name@.len() - 2] == suf[2]);
                assert(name@[name@.len() - 1] == suf[3]);
                assert(false);
            }
        }
        return None;
    }
    proof {
        assert(name@.subrange(name@.len() - 4, name@.len() as int) =~= seq!['.', 'l', 'o', 'g']);
    }
    let ghost digits = name@.subrange(0, name@.len() - 4);
    let mut v: u64 = 0;
    let mut j: usize = 0;
    while j < n - 4
        invariant
            0 <= j <= n - 4,
            n == cs@.len() == name@.len(),
            5 <= n,
            cs@ == name@,
            digits == name@.subrange(0, name@.len() - 4),
            all_digits(digits.subrange(0, j as int)),
            v as int == digits_val(digits.subrange(0, j as int)),
        decreases n - j,
    {
        let d32 = crate::codec::hex_val_x(cs[j]);
        if d32 >= 10 {
            proof {
                assert(hex_val(digits[j as int]) == hex_val(cs@[j as int]));
                assert(!all_digits(digits));
            }
            return None;
        }
        let d = d32 as u64;
        let step = match v.checked_mul(10) {
            Some(m) => m.checked_add(d),
            None => None,
        };
        match step {
            Some(next) => {
                proof {
                    assert(digits.subrange(0, j + 1).drop_last() =~= digits.subrange(0, j as int));
                    assert(digits.subrange(0, j + 1).last() == cs@[j as int]);
                }
                v = next;
            },
            None => {
                proof {
                    assert(digits.subrange(0, j + 1).drop_last() =~= digits.subrange(0, j as int));
                    assert(digits.subrange(0, j + 1).last() == cs@[j as int]);
                    assert(all_digits(digits.subrange(0, j + 1)));
                    assert(digits_val(digits.subrange(0, j + 1)) > u64::MAX);
                    if name_gen(name@) is Some {
                        lemma_digits_val_prefix(digits, j + 1);
                        assert(false);
                    }
                }
                return None;
            },
        }
        j = j + 1;
    }
    proof {
        assert(digits.subrange(0, j as int) =~= digits);
        assert(name_gen(name@) == Some(v as int));
    }
    Some(v)
}

/// The canonical decimal spelling is made of digits and spells its number.
pub proof fn lemma_dec_str_val(n: int)
    requires
        0 <= n,
    ensures
        all_digits(dec_str(n)),
        digits_val(dec_str(n)) == n,
        dec_str(n).len() >= 1,
    decreases n,
{
    let d = dec_str(n);
    if n < 10 {
        assert(hex_val(hex_digit(n)) == n);
        assert(d.drop_last() =~= Seq::<char>::empty());
        assert(d.last() == hex_digit(n));
        assert(digits_val(d) == digits_val(Seq::<char>::empty()) * 10 + hex_val(hex_digit(n)));
        assert forall|j: int| 0 <= j < d.len() implies 0 <= #[trigger] hex_val(d[j]) < 10 by {
            assert(d[j] == hex_digit(n));
        }
    } else {
        lemma_dec_str_val(n / 10);
        assert(hex_val(hex_digit(n % 10)) == n % 10);
        assert(d.drop_last() =~= dec_str(n / 10));
        assert(d.last() == hex_digit(n % 10));
        assert(digits_val(d) == digits_val(dec_str(n / 10)) * 10 + hex_val(hex_digit(n % 10)));
        vstd::arithmetic::div_mod::lemma_fundamental_div_mod(n, 10);
        assert(digits_val(d) == n);
        assert forall|j: int| 0 <= j < d.len() implies 0 <= #[trigger] hex_val(d[j]) < 10 by {
            if j < d.len() - 1 {
                assert(d[j] == dec_str(n / 10)[j]);
                assert(0 <= hex_val(dec_str(n / 10)[j]) < 10);
            } else {
                assert(d[j] == hex_digit(n % 10));
            }
        }
    }
}

/// A generation's file name parses back to that generation: formatting and
/// parsing of log file names are inverse.
pub proof fn lemma_log_name_round_trip(g: u64)
    ensures
        name_gen(log_name(g as int)) == Some(g as int),
{
    let nm = log_name(g as int);
    lemma_dec_str_val(g as int);
    assert(nm.subrange(nm.len() - 4, nm.len() as int) =~= seq!['.', 'l', 'o', 'g']);
    assert(nm.subrange(0, nm.len() - 4) =~= dec_str(g as int));
}

} // verus!
