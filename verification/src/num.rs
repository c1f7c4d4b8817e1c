//! Decimal rendering of counts and clause numbers.

use vstd::prelude::*;

verus! {

pub open spec fn digit_char(d: nat) -> char {
    (('0' as u32) + d) as char
}

/// `n.to_string()`: the decimal digits of `n`, most significant first.
pub open spec fn decimal(n: nat) -> Seq<char>
    decreases n,
{
    if n < 10 {
        seq![digit_char(n)]
    } else {
        decimal(n / 10).push(digit_char(n % 10))
    }
}

fn digit_exec(d: usize) -> (c: char)
    requires
        d < 10,
    ensures
        c == digit_char(d as nat),
{
    let u = 48u8 + (d as u8);
    let c = u as char;
    assert(c == digit_char(d as nat)) by {
        assert(('0' as u32) == 48);
    }
    c
}

/// The decimal digits of `n`.
pub fn decimal_string(n: usize) -> (r: String)
    ensures
        r@ == decimal(n as nat),
{
    let mut digits: Vec<char> = Vec::new();
    let mut m = n;
    // Digits are produced least significant first, then reversed.
    let ghost mut acc: Seq<char> = Seq::empty();
    while m >= 10
        invariant
            decimal(n as nat) == decimal(m as nat) + acc,
            digits@ == acc.reverse(),
            m <= n,
        decreases m,
    {
        let d = m % 10;
        let c = digit_exec(d);
        proof {
            assert(decimal(m as nat) == decimal((m / 10) as nat).push(c));
            assert(decimal((m / 10) as nat).push(c) + acc =~= decimal((m / 10) as nat) + (seq![c] + acc));
        }
        digits.push(c);
        proof {
            acc = seq![c] + acc;
            assert(digits@ =~= acc.reverse());
        }
        m = m / 10;
    }
    let c = digit_exec(m);
    proof {
        assert(decimal(m as nat) == seq![c]);
    }
    digits.push(c);
    proof {
        acc = seq![c] + acc;
        assert(digits@ =~= acc.reverse());
    }
    assert(decimal(n as nat) == acc);
    let mut s = String::new();
    let mut i = digits.len();
    while i > 0
        invariant
            i <= digits.len(),
            digits@ == acc.reverse(),
            s@ == acc.take((digits.len() - i) as int),
        decreases i,
    {
        i -= 1;
        let ghost k = digits.len() - i - 1;
        assert(acc[k as int] == digits@[i as int]);
        s.push(digits[i]);
        assert(acc.take(k + 1) == acc.take(k as int).push(acc[k as int]));
    }
    assert(acc.take(digits.len() as int) == acc);
    s
}

/// Decimal rendering is exact: the digits read back as the number, every
/// character is an ASCII digit, and there is no leading zero.
pub proof fn lemma_decimal_reads_back(n: nat)
    ensures
        decimal(n).len() >= 1,
        forall|i: int| 0 <= i < decimal(n).len() ==> '0' <= #[trigger] decimal(n)[i] <= '9',
        crate::wordml::digits_value(decimal(n)) == n,
        n >= 10 ==> decimal(n)[0] != '0',
    decreases n,
{
    assert(('0' as u32) == 48);
    if n < 10 {
        let d = decimal(n);
        assert(d.drop_last() =~= Seq::<char>::empty());
        assert(d.last() == digit_char(n));
        assert((digit_char(n) as nat) == 48 + n);
        assert(crate::wordml::digits_value(d.drop_last()) == 0);
        assert(d.last() == d[d.len() - 1]);
    } else {
        lemma_decimal_reads_back(n / 10);
        let p = decimal(n / 10);
        let d = decimal(n);
        assert(d == p.push(digit_char(n % 10)));
        assert(d.drop_last() =~= p);
        assert((digit_char(n % 10) as nat) == 48 + n % 10);
        assert((n / 10) * 10 + n % 10 == n) by (nonlinear_arith);
        assert(crate::wordml::digits_value(d) == crate::wordml::digits_value(p) * 10 + ((d.last() as nat) - 48) as nat);
        assert forall|i: int| 0 <= i < d.len() implies '0' <= #[trigger] d[i] <= '9' by {
            if i < p.len() {
                assert(d[i] == p[i]);
            }
        }
        assert(d[0] == p[0]);
        if n / 10 < 10 {
            assert(p[0] == digit_char(n / 10));
            assert((digit_char(n / 10) as nat) == 48 + n / 10);
        }
    }
}

} // verus!
