//! Numbers as text: writing them in decimal and reading them back.

use vstd::prelude::*;
use crate::text::chars;

verus! {

/// The digit for a value below ten.
pub open spec fn digit(n: nat) -> char {
    ('0' as u32 + n) as char
}

/// `n` in decimal.
pub open spec fn decimal(n: nat) -> Seq<char>
    decreases n,
{
    if n < 10 {
        seq![digit(n)]
    } else {
        decimal(n / 10).push(digit(n % 10))
    }
}

/// What a character is worth as a digit in base ten or sixteen.
pub open spec fn digit_value(c: char, radix: nat) -> Option<nat> {
    if '0' <= c <= '9' {
        Some((c as u32 - '0' as u32) as nat)
    } else if radix == 16 && 'a' <= c <= 'f' {
        Some((c as u32 - 'a' as u32 + 10) as nat)
    } else if radix == 16 && 'A' <= c <= 'F' {
        Some((c as u32 - 'A' as u32 + 10) as nat)
    } else {
        None
    }
}

/// The number that a run of digits writes; nothing if a character is no digit.
pub open spec fn digits_value(s: Seq<char>, radix: nat) -> Option<nat>
    decreases s.len(),
{
    if s.len() == 0 {
        Some(0)
    } else {
        match (digits_value(s.drop_last(), radix), digit_value(s.last(), radix)) {
            (Some(high), Some(low)) => Some(high * radix + low),
            _ => None,
        }
    }
}

/// The number below 65536 that `s` writes: one or more digits, which may have
/// a plus sign before them.
pub open spec fn read_u16(s: Seq<char>, radix: nat) -> Option<u16> {
    let body = if s.len() > 1 && s[0] == '+' {
        s.skip(1)
    } else {
        s
    };
    if body.len() == 0 {
        None
    } else {
        match digits_value(body, radix) {
            Some(n) => if n <= 0xffff {
                Some(n as u16)
            } else {
                None
            },
            None => None,
        }
    }
}

fn value_of(c: char, radix: u32) -> (r: Option<u32>)
    requires
        radix == 10 || radix == 16,
    ensures
        r is Some <==> digit_value(c, radix as nat) is Some,
        r is Some ==> r->0 == digit_value(c, radix as nat)->0 && r->0 < radix,
{
    if '0' <= c && c <= '9' {
        Some(c as u32 - '0' as u32)
    } else if radix == 16 && 'a' <= c && c <= 'f' {
        Some(c as u32 - 'a' as u32 + 10)
    } else if radix == 16 && 'A' <= c && c <= 'F' {
        Some(c as u32 - 'A' as u32 + 10)
    } else {
        None
    }
}

/// The number below 65536 that `s` writes in base ten or sixteen.
pub fn parse_u16(s: &str, radix: u32) -> (r: Option<u16>)
    requires
        radix == 10 || radix == 16,
    ensures
        r == read_u16(s@, radix as nat),
{
    let cs: Vec<char> = chars(s);
    let start: usize = if cs.len() > 1 && cs[0] == '+' {
        1
    } else {
        0
    };
    if cs.len() == start {
        return None;
    }
    let ghost body = s@.skip(start as int);
    let mut total: u32 = 0;
    let mut i: usize = start;
    proof {
        assert(s@.skip(0) =~= s@);
        assert(body.take(0) =~= Seq::<char>::empty());
    }
    while i < cs.len()
        invariant
            cs@ == s@,
            radix == 10 || radix == 16,
            start <= i <= cs@.len(),
            body == s@.skip(start as int),
            start <= s@.len(),
            total <= 0x10000,
            ({
                let v = digits_value(body.take(i - start), radix as nat);
                &&& v is Some
                &&& total < 0x10000 ==> v->0 == total
                &&& total == 0x10000 ==> v->0 > 0xffff
            }),
            body.len() > 0,
            body == (if s@.len() > 1 && s@[0] == '+' {
                s@.skip(1)
            } else {
                s@
            }),
        decreases cs@.len() - i,
    {
        let ghost next = body.take(i + 1 - start);
        proof {
            assert(next.drop_last() =~= body.take(i - start));
            assert(next.last() == cs@[i as int]);
        }
        match value_of(cs[i], radix) {
            Some(low) => {
                let ghost high = digits_value(body.take(i - start), radix as nat)->0;
                let wide: u32 = total * radix + low;
                proof {
                    if total == 0x10000 {
                        assert(high * radix + low > 0xffff) by (nonlinear_arith)
                            requires
                                high > 0xffff,
                                radix >= 10,
                                low >= 0,
                        ;
                        assert(wide >= 0x10000);
                    }
                }
                total = if wide > 0xffff {
                    0x10000
                } else {
                    wide
                };
            },
            None => {
                proof {
                    lemma_bad_digit(body, i - start, radix as nat);
                }
                return None;
            },
        }
        i += 1;
    }
    assert(body.take(i - start) =~= body);
    if total > 0xffff {
        None
    } else {
        Some(total as u16)
    }
}

/// One character that is no digit spoils the whole run.
pub proof fn lemma_bad_digit(s: Seq<char>, i: int, radix: nat)
    requires
        0 <= i < s.len(),
        digit_value(s[i], radix) is None,
    ensures
        digits_value(s, radix) is None,
    decreases s.len(),
{
    if i < s.len() - 1 {
        lemma_bad_digit(s.drop_last(), i, radix);
    }
}

/// `n` in decimal.
pub fn to_decimal(n: u128) -> (r: String)
    ensures
        r@ == decimal(n as nat),
    decreases n,
{
    let low: char = ((n % 10) as u8 + ('0' as u8)) as char;
    if n < 10 {
        let mut out: String = String::new();
        out.push(low);
        assert(out@ =~= decimal(n as nat));
        out
    } else {
        let mut out: String = to_decimal(n / 10);
        out.push(low);
        out
    }
}

/// A number written in decimal reads back as itself.
pub proof fn lemma_decimal_digits(n: nat)
    ensures
        digits_value(decimal(n), 10) == Some(n),
        decimal(n).len() > 0,
        forall|i: int| 0 <= i < decimal(n).len() ==> '0' <= #[trigger] decimal(n)[i] <= '9',
    decreases n,
{
    if n < 10 {
        let s = seq![digit(n)];
        assert(s.drop_last() =~= Seq::<char>::empty());
        assert(digits_value(s.drop_last(), 10) == Some(0nat));
    } else {
        lemma_decimal_digits(n / 10);
        let s = decimal(n);
        assert(s.drop_last() =~= decimal(n / 10));
    }
}

/// Reading a port back from its decimal text gives the port.
pub proof fn law_decimal_reads_back(n: u16)
    ensures
        read_u16(decimal(n as nat), 10) == Some(n),
{
    lemma_decimal_digits(n as nat);
    assert(decimal(n as nat)[0] != '+');
}

} // verus!
