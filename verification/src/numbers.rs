//! Numbers as they are written in log files: in decimal or in hexadecimal
//! notation.
use crate::text::string_of;
use vstd::prelude::*;
use vstd::slice::slice_subrange;

verus! {

pub open spec fn radix(hex: bool) -> nat {
    if hex {
        16
    } else {
        10
    }
}

/// The digit for `d`, which is less than sixteen.
pub open spec fn digit(d: nat) -> char {
    if d < 10 {
        ('0' as nat + d) as char
    } else {
        ('a' as nat + d - 10) as char
    }
}

/// `n` in decimal or hexadecimal notation.
pub open spec fn numeral(n: nat, hex: bool) -> Seq<char>
    decreases n,
{
    if n < radix(hex) {
        seq![digit(n)]
    } else if hex {
        numeral(n / 16, hex).push(digit(n % 16))
    } else {
        numeral(n / 10, hex).push(digit(n % 10))
    }
}

/// The value of a digit. Letters may be capital.
pub open spec fn digit_value(c: char, hex: bool) -> Option<nat> {
    if '0' <= c && c <= '9' {
        Some((c as nat - '0' as nat) as nat)
    } else if hex && 'a' <= c && c <= 'f' {
        Some((c as nat - 'a' as nat + 10) as nat)
    } else if hex && 'A' <= c && c <= 'F' {
        Some((c as nat - 'A' as nat + 10) as nat)
    } else {
        None
    }
}

pub open spec fn are_digits(s: Seq<char>, hex: bool) -> bool {
    forall|i: int| 0 <= i < s.len() ==> digit_value(#[trigger] s[i], hex) is Some
}

/// The value of digits.
pub open spec fn digits_value(s: Seq<char>, hex: bool) -> nat
    decreases s.len(),
{
    if s.len() == 0 {
        0
    } else {
        digits_value(s.drop_last(), hex) * radix(hex) + digit_value(s.last(), hex)->Some_0
    }
}

/// The number that `s` denotes: digits, which may have a plus sign before them,
/// with a value up to `max`.
pub open spec fn number(s: Seq<char>, hex: bool, max: nat) -> Option<nat> {
    let digits = if s.len() > 0 && s[0] == '+' {
        s.skip(1)
    } else {
        s
    };
    if digits.len() > 0 && are_digits(digits, hex) && digits_value(digits, hex) <= max {
        Some(digits_value(digits, hex))
    } else {
        None
    }
}

fn value_of_digit(c: char, hex: bool) -> (r: Option<u64>)
    ensures
        match r {
            Some(d) => digit_value(c, hex) == Some(d as nat) && d < 16,
            None => digit_value(c, hex) is None,
        },
{
    if '0' <= c && c <= '9' {
        Some((c as u32 - '0' as u32) as u64)
    } else if hex && 'a' <= c && c <= 'f' {
        Some((c as u32 - 'a' as u32 + 10) as u64)
    } else if hex && 'A' <= c && c <= 'F' {
        Some((c as u32 - 'A' as u32 + 10) as u64)
    } else {
        None
    }
}

proof fn lemma_value_grows(s: Seq<char>, hex: bool, i: int)
    requires
        0 <= i <= s.len(),
    ensures
        digits_value(s.take(i), hex) <= digits_value(s, hex),
    decreases s.len() - i,
{
    if i == s.len() {
        assert(s.take(i) =~= s);
    } else {
        lemma_value_grows(s, hex, i + 1);
        assert(s.take(i + 1).drop_last() =~= s.take(i));
    }
}

/// The value of `s`, if they are digits and it is at most `max`. The second part
/// tells whether they are digits.
pub fn parse_digits(s: &[char], hex: bool, max: u64) -> (r: (Option<u64>, bool))
    ensures
        r.1 == are_digits(s@, hex),
        r.1 ==> match r.0 {
            Some(n) => digits_value(s@, hex) == n && n <= max,
            None => digits_value(s@, hex) > max,
        },
{
    let step: u128 = if hex {
        16
    } else {
        10
    };
    let mut value: u64 = 0;
    let mut fits: bool = true;
    let mut i: usize = 0;
    while i < s.len()
        invariant
            step == radix(hex),
            i <= s@.len(),
            are_digits(s@.take(i as int), hex),
            fits ==> value == digits_value(s@.take(i as int), hex) && value <= max,
            !fits ==> digits_value(s@, hex) > max,
        decreases s@.len() - i,
    {
        proof {
            assert(s@.take(i + 1).drop_last() =~= s@.take(i as int));
        }
        match value_of_digit(s[i], hex) {
            Some(d) => {
                if fits {
                    let next: u128 = value as u128 * step + d as u128;
                    if next > max as u128 {
                        proof {
                            lemma_value_grows(s@, hex, i + 1);
                        }
                        fits = false;
                    } else {
                        value = next as u64;
                    }
                }
                proof {
                    let longer = s@.take(i + 1);
                    assert forall|k: int| 0 <= k < longer.len() implies digit_value(
                        #[trigger] longer[k],
                        hex,
                    ) is Some by {
                        if k < i {
                            assert(s@.take(i as int)[k] == longer[k]);
                        }
                    }
                }
            },
            None => {
                proof {
                    assert(digit_value(s@[i as int], hex) is None);
                }
                return (None, false);
            },
        }
        i += 1;
    }
    proof {
        assert(s@.take(s@.len() as int) =~= s@);
    }
    if fits {
        (Some(value), true)
    } else {
        (None, true)
    }
}

/// The value of decimal digits, if it is at most `max`.
pub fn value_up_to(s: &[char], max: u64) -> (r: Option<u64>)
    requires
        are_digits(s@, false),
    ensures
        match r {
            Some(n) => digits_value(s@, false) == n && n <= max,
            None => digits_value(s@, false) > max,
        },
{
    parse_digits(s, false, max).0
}

/// The number that `s` denotes, if it is at most `max`.
pub fn parse_number(s: &[char], hex: bool, max: u64) -> (r: Option<u64>)
    ensures
        match r {
            Some(n) => number(s@, hex, max as nat) == Some(n as nat),
            None => number(s@, hex, max as nat) is None,
        },
{
    let digits: &[char] = if s.len() > 0 && s[0] == '+' {
        proof {
            assert(s@.subrange(1, s@.len() as int) =~= s@.skip(1));
        }
        slice_subrange(s, 1, s.len())
    } else {
        s
    };
    if digits.len() == 0 {
        return None;
    }
    let (value, all) = parse_digits(digits, hex, max);
    if all {
        value
    } else {
        None
    }
}

fn digit_of(d: u64) -> (r: char)
    requires
        d < 16,
    ensures
        r == digit(d as nat),
{
    let letters: [char; 16] = [
        '0',
        '1',
        '2',
        '3',
        '4',
        '5',
        '6',
        '7',
        '8',
        '9',
        'a',
        'b',
        'c',
        'd',
        'e',
        'f',
    ];
    letters[d as usize]
}

/// Appends `n` in decimal or hexadecimal notation.
pub fn push_number(out: &mut Vec<char>, n: u64, hex: bool)
    ensures
        final(out)@ == old(out)@ + numeral(n as nat, hex),
    decreases n,
{
    let ghost before = out@;
    let step: u64 = if hex {
        16
    } else {
        10
    };
    if n >= step {
        push_number(out, n / step, hex);
    }
    out.push(digit_of(n % step));
    proof {
        assert(out@ =~= before + numeral(n as nat, hex));
    }
}

/// What is written of a number denotes it.
pub proof fn law_numeral_denotes_its_number(n: nat, hex: bool)
    ensures
        numeral(n, hex).len() > 0,
        are_digits(numeral(n, hex), hex),
        digits_value(numeral(n, hex), hex) == n,
        forall|max: nat| n <= max ==> #[trigger] number(numeral(n, hex), hex, max) == Some(n),
    decreases n,
{
    let s = numeral(n, hex);
    if n < radix(hex) {
        assert(s.drop_last() =~= seq![]);
        assert(digits_value(s.drop_last(), hex) == 0);
        assert(digit_value(s[0], hex) == Some(n));
    } else {
        let front = if hex {
            n / 16
        } else {
            n / 10
        };
        law_numeral_denotes_its_number(front, hex);
        let f = numeral(front, hex);
        assert(s.drop_last() =~= f);
        assert forall|i: int| 0 <= i < s.len() implies digit_value(
            #[trigger] s[i],
            hex,
        ) is Some by {
            if i < f.len() {
                assert(s[i] == f[i]);
            }
        }
    }
    assert(digit_value(s[0], hex) is Some);
    assert(s[0] != '+');
}

/// `n` in decimal notation.
pub fn decimal_of(n: usize) -> (r: String)
    ensures
        r@ == numeral(n as nat, false),
{
    let mut out: Vec<char> = Vec::new();
    push_number(&mut out, n as u64, false);
    proof {
        assert(out@ =~= numeral(n as nat, false));
    }
    string_of(out.as_slice())
}

} // verus!
