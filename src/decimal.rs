//! Decimal text of integers, as JSON numbers are written.
use vstd::prelude::*;

verus! {

pub open spec fn digit_char(d: int) -> char {
    (d + 48) as u8 as char
}

pub open spec fn is_digit(c: char) -> bool {
    '0' <= c && c <= '9'
}

/// Decimal text of a natural number, without leading zeros.
pub open spec fn decimal(n: nat) -> Seq<char>
    decreases n,
{
    if n < 10 {
        seq![digit_char(n as int)]
    } else {
        decimal(n / 10).push(digit_char((n % 10) as int))
    }
}

/// Decimal text of an integer: a minus sign before negative ones.
pub open spec fn signed_decimal(n: int) -> Seq<char> {
    if n < 0 {
        seq!['-'] + decimal((-n) as nat)
    } else {
        decimal(n as nat)
    }
}

/// `t` holds the number text `d` from `i` on, and no digit follows it.
pub open spec fn number_at(t: Seq<char>, i: int, d: Seq<char>) -> bool {
    &&& 0 <= i
    &&& i + d.len() <= t.len()
    &&& t.subrange(i, i + d.len()) == d
    &&& (i + d.len() == t.len() || !is_digit(t[i + d.len()]))
}

proof fn lemma_div10(v: int, d: int)
    requires
        0 <= v,
        0 <= d < 10,
    ensures
        (v * 10 + d) / 10 == v,
        (v * 10 + d) % 10 == d,
{
    assert((v * 10 + d) / 10 == v && (v * 10 + d) % 10 == d) by (nonlinear_arith)
        requires
            0 <= v,
            0 <= d < 10,
    ;
}

pub proof fn lemma_decimal_shape(n: nat)
    ensures
        decimal(n).len() >= 1,
        forall|j: int| 0 <= j < decimal(n).len() ==> #[trigger] is_digit(decimal(n)[j]),
        decimal(n)[0] == '0' <==> n == 0,
        n < 10 <==> decimal(n).len() == 1,
    decreases n,
{
    if n >= 10 {
        lemma_decimal_shape(n / 10);
    }
}

pub proof fn lemma_decimal_injective(a: nat, b: nat)
    requires
        decimal(a) == decimal(b),
    ensures
        a == b,
    decreases a,
{
    lemma_decimal_shape(a);
    lemma_decimal_shape(b);
    if a >= 10 && b >= 10 {
        assert(decimal(a / 10) =~= decimal(a).drop_last());
        assert(decimal(b / 10) =~= decimal(b).drop_last());
        lemma_decimal_injective(a / 10, b / 10);
        assert(decimal(a).last() == digit_char((a % 10) as int));
        assert(decimal(b).last() == digit_char((b % 10) as int));
        assert(a % 10 == b % 10);
    } else if a < 10 && b < 10 {
        assert(decimal(a)[0] == digit_char(a as int));
        assert(decimal(b)[0] == digit_char(b as int));
    }
}

/// A number whose text begins the text of another is not larger.
proof fn lemma_decimal_prefix(a: nat, b: nat)
    requires
        decimal(a).len() <= decimal(b).len(),
        decimal(b).subrange(0, decimal(a).len() as int) == decimal(a),
    ensures
        a <= b,
    decreases b,
{
    lemma_decimal_shape(a);
    lemma_decimal_shape(b);
    if decimal(a).len() == decimal(b).len() {
        assert(decimal(b).subrange(0, decimal(a).len() as int) =~= decimal(b));
        lemma_decimal_injective(a, b);
    } else {
        assert(decimal(b / 10) =~= decimal(b).drop_last());
        assert(decimal(b / 10).subrange(0, decimal(a).len() as int) =~= decimal(b).subrange(
            0,
            decimal(a).len() as int,
        ));
        lemma_decimal_prefix(a, b / 10);
    }
}

/// Appends the decimal text of `n`.
pub fn push_decimal(out: &mut Vec<char>, n: u128)
    ensures
        final(out)@ == old(out)@ + decimal(n as nat),
    decreases n,
{
    if n >= 10 {
        push_decimal(out, n / 10);
    }
    let d: u8 = (n % 10) as u8;
    out.push((d + 48) as char);
    proof {
        assert(old(out)@ + decimal(n as nat) =~= final(out)@) by {
            if n >= 10 {
                assert(decimal(n as nat) == decimal((n / 10) as nat).push(digit_char((n % 10) as int)));
            }
        }
    }
}

/// Appends the decimal text of `n`, with a minus sign where it is negative.
pub fn push_signed_decimal(out: &mut Vec<char>, n: i128)
    ensures
        final(out)@ == old(out)@ + signed_decimal(n as int),
{
    if n < 0 {
        out.push('-');
        let m: u128 = (-(n + 1)) as u128 + 1;
        push_decimal(out, m);
        assert(final(out)@ =~= old(out)@ + signed_decimal(n as int));
    } else {
        push_decimal(out, n as u128);
    }
}

/// Reads the decimal number (no sign, no leading zero) at `i`, if it is at
/// most `max` and no digit follows it.
pub fn read_decimal(t: &Vec<char>, i: usize, max: u128) -> (r: Option<(u128, usize)>)
    ensures
        r matches Some((n, e)) ==> n <= max && e == i + decimal(n as nat).len() && number_at(
            t@,
            i as int,
            decimal(n as nat),
        ),
        forall|n: nat| #![trigger decimal(n)]
            n <= max && number_at(t@, i as int, decimal(n)) ==> r == Some((n as u128, (i + decimal(n).len()) as usize)),
{
    if i >= t.len() || !('0' <= t[i] && t[i] <= '9') {
        proof {
            assert forall|n: nat| #![trigger decimal(n)] n <= max && number_at(t@, i as int, decimal(n)) implies false by {
                lemma_decimal_shape(n);
                assert(is_digit(decimal(n)[0]));
                assert(t@[i as int] == decimal(n)[0]);
            }
        }
        return None;
    }
    if t[i] == '0' {
        if i + 1 < t.len() && '0' <= t[i + 1] && t[i + 1] <= '9' {
            proof {
                assert forall|n: nat| #![trigger decimal(n)] n <= max && number_at(t@, i as int, decimal(n)) implies false by {
                    lemma_decimal_shape(n);
                    assert(t@[i as int] == decimal(n)[0]);
                    assert(decimal(n).len() == 1);
                }
            }
            return None;
        }
        proof {
            assert(t@.subrange(i as int, i + 1) =~= decimal(0));
            assert forall|n: nat| #![trigger decimal(n)] n <= max && number_at(t@, i as int, decimal(n)) implies n == 0 by {
                lemma_decimal_shape(n);
                assert(t@[i as int] == decimal(n)[0]);
            }
        }
        return Some((0, i + 1));
    }
    let mut val: u128 = 0;
    let mut j: usize = i;
    while j < t.len() && '0' <= t[j] && t[j] <= '9'
        invariant
            i <= j <= t@.len(),
            t@[i as int] != '0',
            is_digit(t@[i as int]),
            j == i ==> val == 0,
            j > i ==> val >= 1 && t@.subrange(i as int, j as int) == decimal(val as nat),
            val <= max,
            forall|n: nat| #![trigger decimal(n)]
                n <= max && number_at(t@, i as int, decimal(n)) ==> j <= i + decimal(n).len()
                    && val <= n && t@.subrange(i as int, j as int) == decimal(n).subrange(0, j - i),
        decreases t@.len() - j,
    {
        let d: u128 = (t[j] as u32 - 48) as u128;
        let ghost old_val = val;
        proof {
            assert forall|n: nat| #![trigger decimal(n)] n <= max && number_at(t@, i as int, decimal(n)) implies j < i + decimal(n).len() && val * 10 + d <= n by {
                lemma_decimal_shape(n);
                if j == i + decimal(n).len() {
                    assert(false);
                }
                assert(t@[j as int] == decimal(n)[j - i]);
                assert(t@.subrange(i as int, j + 1) =~= decimal(n).subrange(0, j + 1 - i));
                if j == i {
                    assert(t@.subrange(i as int, j + 1) =~= decimal(d as nat));
                } else {
                    lemma_div10(val as int, d as int);
                    assert(decimal((val * 10 + d) as nat) == decimal(val as nat).push(digit_char(d as int)));
                    assert(t@.subrange(i as int, j + 1) =~= decimal((val * 10 + d) as nat));
                }
                lemma_decimal_prefix((val * 10 + d) as nat, n);
            }
        }
        if d > max || val > (max - d) / 10 {
            proof {
                assert(val * 10 + d > max) by (nonlinear_arith)
                    requires
                        d > max || val > (max - d) / 10,
                        d <= 9,
                ;
            }
            return None;
        }
        proof {
            assert(val * 10 + d <= max) by (nonlinear_arith)
                requires
                    d <= max,
                    val <= (max - d) / 10,
            ;
        }
        val = val * 10 + d;
        proof {
            if j == i {
                assert(t@.subrange(i as int, j + 1) =~= decimal(val as nat));
            } else {
                lemma_div10(old_val as int, d as int);
                assert(decimal(val as nat) == decimal(old_val as nat).push(digit_char(d as int)));
                assert(t@.subrange(i as int, j + 1) =~= t@.subrange(i as int, j as int).push(t@[j as int]));
            }
        }
        j = j + 1;
    }
    proof {
        lemma_decimal_shape(val as nat);
        assert forall|n: nat| #![trigger decimal(n)] n <= max && number_at(t@, i as int, decimal(n)) implies val == n by {
            lemma_decimal_shape(n);
            if j < i + decimal(n).len() {
                assert(t@[j as int] == decimal(n)[j - i]);
            }
            assert(decimal(n).subrange(0, j - i) =~= decimal(n));
            lemma_decimal_injective(val as nat, n);
        }
    }
    Some((val, j))
}

/// Reads the decimal integer (optional minus sign, no leading zero, no
/// "-0") at `i`, if it fits in an `i128` and no digit follows it.
pub fn read_signed_decimal(t: &Vec<char>, i: usize) -> (r: Option<(i128, usize)>)
    ensures
        r matches Some((n, e)) ==> e == i + signed_decimal(n as int).len() && number_at(
            t@,
            i as int,
            signed_decimal(n as int),
        ),
        forall|n: i128| #![trigger signed_decimal(n as int)]
            number_at(t@, i as int, signed_decimal(n as int)) ==> r == Some(
                (n, (i + signed_decimal(n as int).len()) as usize),
            ),
{
    if i < t.len() && t[i] == '-' {
        let m = read_decimal(t, i + 1, 0x8000_0000_0000_0000_0000_0000_0000_0000);
        proof {
            assert forall|n: i128| #![trigger signed_decimal(n as int)]
                number_at(t@, i as int, signed_decimal(n as int)) implies n < 0 && number_at(
                t@,
                i + 1,
                decimal((-n) as nat),
            ) by {
                let s = signed_decimal(n as int);
                assert(t@[i as int] == s[0]);
                if n >= 0 {
                    lemma_decimal_shape(n as nat);
                    assert(is_digit(s[0]));
                }
                assert(t@.subrange(i + 1, i + s.len()) =~= t@.subrange(i as int, i + s.len()).drop_first());
                assert(s.drop_first() =~= decimal((-n) as nat));
            }
        }
        match m {
            Some((v, e)) => {
                if v == 0 {
                    proof {
                        assert forall|n: i128| #![trigger signed_decimal(n as int)]
                            number_at(t@, i as int, signed_decimal(n as int)) implies false by {
                            assert(decimal((-n) as nat) == decimal(0));
                            lemma_decimal_injective((-n) as nat, 0);
                        }
                    }
                    return None;
                }
                let n: i128 = if v == 0x8000_0000_0000_0000_0000_0000_0000_0000 {
                    -0x8000_0000_0000_0000_0000_0000_0000_0000
                } else {
                    -(v as i128)
                };
                proof {
                    assert(signed_decimal(n as int) == seq!['-'] + decimal(v as nat));
                    assert(t@.subrange(i as int, e as int) =~= seq!['-'] + t@.subrange(i + 1, e as int));
                    assert forall|w: i128| #![trigger signed_decimal(w as int)]
                        number_at(t@, i as int, signed_decimal(w as int)) implies w == n by {
                        assert(((-w) as nat) == v);
                    }
                }
                Some((n, e))
            },
            None => None,
        }
    } else {
        let m = read_decimal(t, i, 0x7fff_ffff_ffff_ffff_ffff_ffff_ffff_ffff);
        proof {
            assert forall|n: i128| #![trigger signed_decimal(n as int)]
                number_at(t@, i as int, signed_decimal(n as int)) implies n >= 0 && number_at(
                t@,
                i as int,
                decimal(n as nat),
            ) by {
                if n < 0 {
                    let s = signed_decimal(n as int);
                    assert(t@[i as int] == s[0]);
                }
            }
        }
        match m {
            Some((v, e)) => Some((v as i128, e)),
            None => None,
        }
    }
}

} // verus!
