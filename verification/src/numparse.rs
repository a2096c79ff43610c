//! Unsigned integers from text, with the rules of `usize::from_str_radix`.
use vstd::prelude::*;

verus! {

/// The value of digit `c` in base `radix`: `0`-`9`, then letters of either case from 10 on.
pub open spec fn digit_value(c: char, radix: nat) -> Option<nat> {
    let v = c as u32;
    let d: int = if 48 <= v <= 57 {
        v - 48
    } else if 97 <= v <= 122 {
        v - 87
    } else if 65 <= v <= 90 {
        v - 55
    } else {
        99
    };
    if d < radix {
        Some(d as nat)
    } else {
        None
    }
}

/// The value of the digits `ds` in base `radix`, if every one is a digit.
pub open spec fn digits_value(ds: Seq<char>, radix: nat) -> Option<nat>
    decreases ds.len(),
{
    if ds.len() == 0 {
        Some(0)
    } else {
        match (digits_value(ds.drop_last(), radix), digit_value(ds.last(), radix)) {
            (Some(v), Some(d)) => Some(v * radix + d),
            _ => None,
        }
    }
}

/// What `usize::from_str_radix` accepts: an optional `+`, then at least one digit, with a value
/// that fits in a `usize`.
pub open spec fn spec_from_str_radix(s: Seq<char>, radix: nat) -> Option<usize> {
    if s.len() == 0 {
        None
    } else {
        let ds = if s[0] == '+' {
            s.drop_first()
        } else {
            s
        };
        if ds.len() == 0 {
            None
        } else {
            match digits_value(ds, radix) {
                Some(v) => if v <= usize::MAX {
                    Some(v as usize)
                } else {
                    None
                },
                None => None,
            }
        }
    }
}

/// Digits only add to the value: a prefix never has a larger value than the whole.
proof fn lemma_digits_monotone(ds: Seq<char>, radix: nat, i: int)
    requires
        0 <= i <= ds.len(),
        radix >= 1,
        digits_value(ds, radix) is Some,
    ensures
        digits_value(ds.take(i), radix) is Some,
        digits_value(ds.take(i), radix)->Some_0 <= digits_value(ds, radix)->Some_0,
    decreases ds.len(),
{
    if i == ds.len() {
        assert(ds.take(i) =~= ds);
    } else {
        lemma_digits_monotone(ds.drop_last(), radix, i);
        assert(ds.drop_last().take(i) =~= ds.take(i));
        let v = digits_value(ds.drop_last(), radix)->Some_0;
        assert(v <= v * radix) by (nonlinear_arith)
            requires
                radix >= 1,
        ;
    }
}

fn digit_of(c: char, radix: u32) -> (r: Option<u32>)
    requires
        2 <= radix <= 36,
    ensures
        match digit_value(c, radix as nat) {
            Some(d) => r == Some(d as u32),
            None => r is None,
        },
{
    let v = c as u32;
    let d: u32 = if 48 <= v && v <= 57 {
        v - 48
    } else if 97 <= v && v <= 122 {
        v - 87
    } else if 65 <= v && v <= 90 {
        v - 55
    } else {
        99
    };
    if d < radix {
        Some(d)
    } else {
        None
    }
}

/// `usize::from_str_radix` on the characters `s`.
pub fn from_str_radix(s: &[char], radix: u32) -> (r: Option<usize>)
    requires
        2 <= radix <= 36,
    ensures
        r == spec_from_str_radix(s@, radix as nat),
{
    let n = s.len();
    if n == 0 {
        return None;
    }
    let start: usize = if s[0] == '+' {
        1
    } else {
        0
    };
    let ghost ds = if s@[0] == '+' {
        s@.drop_first()
    } else {
        s@
    };
    assert(ds =~= s@.skip(start as int));
    if start == n {
        return None;
    }
    let mut v: usize = 0;
    let mut i: usize = start;
    assert(ds.take(0) =~= Seq::<char>::empty());
    while i < n
        invariant
            start <= i <= n,
            n == s@.len(),
            ds == s@.skip(start as int),
            s@.len() > 0,
            ds == (if s@[0] == '+' {
                s@.drop_first()
            } else {
                s@
            }),
            ds.len() > 0,
            2 <= radix <= 36,
            digits_value(ds.take(i - start), radix as nat) == Some(v as nat),
        decreases n - i,
    {
        let ghost k = i - start;
        assert(ds.take(k + 1).drop_last() =~= ds.take(k));
        assert(ds.take(k + 1).last() == s@[i as int]);
        let d = match digit_of(s[i], radix) {
            Some(d) => d,
            None => {
                proof {
                    if digits_value(ds, radix as nat) is Some {
                        lemma_digits_monotone(ds, radix as nat, k + 1);
                    }
                }
                return None;
            },
        };
        if v > (usize::MAX - d as usize) / radix as usize {
            proof {
                assert(v * radix + d > usize::MAX) by (nonlinear_arith)
                    requires
                        v > (usize::MAX - d) / (radix as int),
                        radix >= 2,
                        d <= usize::MAX,
                ;
                if digits_value(ds, radix as nat) is Some {
                    lemma_digits_monotone(ds, radix as nat, k + 1);
                }
            }
            return None;
        }
        assert(v * radix + d <= usize::MAX) by (nonlinear_arith)
            requires
                v <= (usize::MAX - d) / (radix as int),
                radix >= 2,
                d <= usize::MAX,
        ;
        v = v * radix as usize + d as usize;
        i = i + 1;
    }
    assert(ds.take(n - start) =~= ds);
    Some(v)
}

} // verus!
