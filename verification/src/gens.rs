use vstd::prelude::*;

use crate::codec::hex_char;
use crate::codec::hex_val;
use crate::text::{chars_of, string_from_chars};

verus! {

// ============================================================================
// Generation file names: `<decimal>.log`
// ============================================================================

/// The decimal digits of a non-negative number, most significant first.
pub open spec fn dec_digits(n: int) -> Seq<char>
    decreases n,
{
    if n < 10 {
        seq![hex_char(n)]
    } else {
        dec_digits(n / 10) + seq![hex_char(n % 10)]
    }
}

/// Whether every character is a decimal digit.
pub open spec fn is_digits(s: Seq<char>) -> bool {
    s.len() > 0 && forall|i: int| 0 <= i < s.len() ==> 0 <= hex_val(#[trigger] s[i]) < 10
}

/// The value of a string of decimal digits.
pub open spec fn dec_val(s: Seq<char>) -> int
    decreases s.len(),
{
    if s.len() == 0 {
        0
    } else {
        dec_val(s.drop_last()) * 10 + hex_val(s.last())
    }
}

/// The file name suffix of a generation file.
pub open spec fn log_suffix() -> Seq<char> {
    seq!['.', 'l', 'o', 'g']
}

/// The generation named by a file name: `Some(g)` exactly for names of the
/// form `<decimal digits>.log` whose digits read as `g` (leading zeros
/// allowed, as in a plain integer parse).
pub open spec fn parse_log_name(s: Seq<char>) -> Option<u64> {
    let pre = s.take(s.len() - 4);
    if s.len() >= 5 && s.skip(s.len() - 4) == log_suffix() && is_digits(pre) && dec_val(pre)
        <= u64::MAX {
        Some(dec_val(pre) as u64)
    } else {
        None
    }
}

/// Digit strings read as non-negative numbers, and extending a digit string
/// never shrinks its value.
proof fn lemma_dec_val_monotone(s: Seq<char>, i: int)
    requires
        forall|t: int| 0 <= t < s.len() ==> 0 <= hex_val(#[trigger] s[t]) < 10,
        0 <= i <= s.len(),
    ensures
        dec_val(s.take(i)) >= 0,
        dec_val(s) >= dec_val(s.take(i)),
    decreases s.len(),
{
    if s.len() == 0 {
        assert(s.take(i) =~= s);
    } else if i == s.len() {
        assert(s.take(i) =~= s);
        assert(forall|t: int|
            0 <= t < s.len() - 1 ==> 0 <= hex_val(#[trigger] s.drop_last()[t]) < 10);
        lemma_dec_val_monotone(s.drop_last(), s.len() - 1);
        assert(s.drop_last().take(s.len() - 1) =~= s.drop_last());
    } else {
        assert(forall|t: int|
            0 <= t < s.len() - 1 ==> 0 <= hex_val(#[trigger] s.drop_last()[t]) < 10);
        lemma_dec_val_monotone(s.drop_last(), i);
        assert(s.drop_last().take(i) =~= s.take(i));
        assert(dec_val(s) == dec_val(s.drop_last()) * 10 + hex_val(s.last()));
        assert(dec_val(s.drop_last()) * 10 >= dec_val(s.drop_last())) by {
            lemma_dec_val_monotone(s.drop_last(), s.len() - 1);
            assert(s.drop_last().take(s.len() - 1) =~= s.drop_last());
        }
    }
}

/// Append the decimal digits of `n` to `out`.
fn push_dec(out: &mut Vec<char>, n: u64)
    ensures
        final(out)@ == old(out)@ + dec_digits(n as int),
    decreases n,
{
    if n < 10 {
        out.push(crate::codec::hex_digit_char(n as u8));
        proof {
            assert(out@ =~= old(out)@ + seq![hex_char(n as int)]);
        }
    } else {
        push_dec(out, n / 10);
        out.push(crate::codec::hex_digit_char((n % 10) as u8));
        proof {
            assert(out@ =~= old(out)@ + (dec_digits(n as int / 10) + seq![hex_char(
                n as int % 10,
            )]));
        }
    }
}

/// The file name of a generation: its number in decimal, then `.log`.
pub fn log_file_name(gen: u64) -> (r: String)
    ensures
        r@ == dec_digits(gen as int) + log_suffix(),
{
    let mut out: Vec<char> = Vec::new();
    push_dec(&mut out, gen);
    out.push('.');
    out.push('l');
    out.push('o');
    out.push('g');
    proof {
        assert(out@ =~= dec_digits(gen as int) + log_suffix());
    }
    string_from_chars(&out)
}

/// Parse a directory entry's name as a generation file name.
pub fn parse_gen_file_name(name: &str) -> (r: Option<u64>)
    ensures
        r == parse_log_name(name@),
{
    let cs = chars_of(name);
    let n = cs.len();
    if n < 5 {
        return None;
    }
    let ghost pre = cs@.take(n as int - 4);
    if cs[n - 4] != '.' || cs[n - 3] != 'l' || cs[n - 2] != 'o' || cs[n - 1] != 'g' {
        proof {
            assert(cs@.skip(n as int - 4) != log_suffix()) by {
                if cs@.skip(n as int - 4) == log_suffix() {
                    assert(cs@.skip(n as int - 4)[0] == cs@[n - 4]);
                    assert(cs@.skip(n as int - 4)[1] == cs@[n - 3]);
                    assert(cs@.skip(n as int - 4)[2] == cs@[n - 2]);
                    assert(cs@.skip(n as int - 4)[3] == cs@[n - 1]);
                }
            }
        }
        return None;
    }
    proof {
        assert(cs@.skip(n as int - 4) =~= log_suffix());
    }
    let mut acc: u64 = 0;
    let mut i: usize = 0;
    while i < n - 4
        invariant
            0 <= i <= n - 4,
            cs@ == name@,
            n == cs@.len(),
            n >= 5,
            pre == cs@.take(n as int - 4),
            cs@.skip(n as int - 4) == log_suffix(),
            forall|t: int| 0 <= t < i ==> 0 <= hex_val(#[trigger] pre[t]) < 10,
            acc as int == dec_val(pre.take(i as int)),
        decreases n - 4 - i,
    {
        let c = cs[i];
        assert(c == pre[i as int]);
        let d: u64 = match crate::codec::hex_digit_val(c) {
            Some(v) => {
                if v >= 10 {
                    proof {
                        assert(!is_digits(pre));
                    }
                    return None;
                }
                v as u64
            },
            None => {
                proof {
                    assert(!is_digits(pre));
                }
                return None;
            },
        };
        proof {
            assert(pre.take(i as int + 1).drop_last() =~= pre.take(i as int));
            assert(pre.take(i as int + 1).last() == pre[i as int]);
        }
        if acc > (u64::MAX - d) / 10 {
            // the digits overflow a 64-bit generation number
            proof {
                assert(dec_val(pre.take(i as int + 1)) > u64::MAX) by (nonlinear_arith)
                    requires
                        acc as int == dec_val(pre.take(i as int)),
                        dec_val(pre.take(i as int + 1)) == dec_val(pre.take(i as int)) * 10
                            + hex_val(pre[i as int]),
                        acc > (u64::MAX - d) / 10,
                        d as int == hex_val(pre[i as int]),
                        0 <= d < 10,
                ;
                if is_digits(pre) {
                    lemma_dec_val_monotone(pre, i as int + 1);
                }
            }
            return None;
        }
        proof {
            assert(acc * 10 + d <= u64::MAX) by (nonlinear_arith)
                requires
                    0 <= acc <= (u64::MAX - d) / 10,
                    0 <= d < 10,
            ;
        }
        acc = acc * 10 + d;
        i = i + 1;
    }
    proof {
        assert(pre.take(pre.len() as int) =~= pre);
        assert(is_digits(pre)) by {
            assert(pre.len() == n - 4 >= 1);
        }
    }
    Some(acc)
}

/// Insert a generation into an ascending list, keeping it ascending and
/// without duplicates.
fn insert_gen(gens: &mut Vec<u64>, g: u64)
    requires
        forall|a: int, b: int| 0 <= a < b < old(gens)@.len() ==> old(gens)@[a] < old(gens)@[b],
    ensures
        forall|a: int, b: int|
            0 <= a < b < final(gens)@.len() ==> final(gens)@[a] < final(gens)@[b],
        forall|x: u64| final(gens)@.contains(x) <==> (old(gens)@.contains(x) || x == g),
{
    let ghost orig = gens@;
    let mut p: usize = 0;
    while p < gens.len() && gens[p] < g
        invariant
            gens@ == orig,
            0 <= p <= gens@.len(),
            forall|t: int| 0 <= t < p ==> gens@[t] < g,
        decreases gens@.len() - p,
    {
        p = p + 1;
    }
    if p < gens.len() && gens[p] == g {
        proof {
            assert(gens@.contains(g));
            assert(forall|x: u64| gens@.contains(x) <==> (orig.contains(x) || x == g));
        }
        return ;
    }
    proof {
        assert(forall|t: int| p <= t < gens@.len() ==> g < gens@[t]) by {
            if p < gens@.len() {
                assert(forall|t: int|
                    p < t < gens@.len() ==> gens@[p as int] < gens@[t]);
            }
        }
    }
    gens.insert(p, g);
    proof {
        assert(forall|t: int| 0 <= t < p ==> gens@[t] == orig[t]);
        assert(gens@[p as int] == g);
        assert(forall|t: int| p < t < gens@.len() ==> gens@[t] == orig[t - 1]);
        assert(forall|x: u64| gens@.contains(x) <==> (orig.contains(x) || x == g)) by {
            assert(forall|t: int|
                0 <= t < orig.len() ==> gens@.contains(#[trigger] orig[t])) by {
                assert(forall|t: int|
                    0 <= t < orig.len() ==> orig[t] == (if t < p {
                        gens@[t]
                    } else {
                        gens@[t + 1]
                    }));
            }
        }
    }
}

/// The generations named by the directory's file names, in ascending order
/// and without duplicates: exactly the numbers `g` such that some name reads
/// as `<g>.log`.
pub fn sorted_gen_list(names: &Vec<String>) -> (r: Vec<u64>)
    ensures
        forall|a: int, b: int| 0 <= a < b < r@.len() ==> r@[a] < r@[b],
        forall|g: u64|
            r@.contains(g) <==> (exists|i: int|
                0 <= i < names@.len() && parse_log_name((#[trigger] names@[i])@) == Some(g)),
{
    let mut gens: Vec<u64> = Vec::new();
    let mut i: usize = 0;
    while i < names.len()
        invariant
            0 <= i <= names@.len(),
            forall|a: int, b: int| 0 <= a < b < gens@.len() ==> gens@[a] < gens@[b],
            forall|g: u64|
                gens@.contains(g) <==> (exists|t: int|
                    0 <= t < i && parse_log_name((#[trigger] names@[t])@) == Some(g)),
        decreases names@.len() - i,
    {
        match parse_gen_file_name(names[i].as_str()) {
            Some(g) => {
                insert_gen(&mut gens, g);
            },
            None => {},
        }
        i = i + 1;
    }
    gens
}

} // verus!
