//! Decimal formatting of integers, as `to_string()` and `format!("{:0w}")` write them.
use vstd::prelude::*;

verus! {

/// The character of a decimal digit.
pub open spec fn digit_char(d: int) -> char {
    (48 + d) as char
}

/// The decimal digits of `n`, without leading zeros (`0` is `"0"`).
pub open spec fn dec(n: nat) -> Seq<char>
    decreases n,
{
    if n < 10 {
        seq![digit_char(n as int)]
    } else {
        dec(n / 10).push(digit_char((n % 10) as int))
    }
}

/// `s` with zeros in front up to `w` characters.
pub open spec fn zero_pad(s: Seq<char>, w: int) -> Seq<char> {
    if s.len() >= w {
        s
    } else {
        Seq::new((w - s.len()) as nat, |i: int| '0') + s
    }
}

/// `format!("{:0w}", n)`: a minus sign for negative numbers, then zeros up to `w` characters in
/// all, then the digits.
pub open spec fn fmt_int(n: int, w: int) -> Seq<char> {
    if n < 0 {
        seq!['-'] + zero_pad(dec((-n) as nat), w - 1)
    } else {
        zero_pad(dec(n as nat), w)
    }
}

pub proof fn lemma_dec_len(n: nat)
    ensures
        dec(n).len() >= 1,
        n < 10 ==> dec(n).len() == 1,
        10 <= n < 100 ==> dec(n).len() == 2,
        100 <= n < 1000 ==> dec(n).len() == 3,
        1000 <= n < 10000 ==> dec(n).len() == 4,
    decreases n,
{
    if n >= 10 {
        lemma_dec_len(n / 10);
    }
}

/// The digits of `n`.
pub fn dec_exec(n: u64) -> (r: Vec<char>)
    ensures
        r@ == dec(n as nat),
    decreases n,
{
    let d = (n % 10) as u32;
    let c = ((48 + d) as u8) as char;
    proof {
        assert(c == digit_char((n % 10) as int));
    }
    if n < 10 {
        vec![c]
    } else {
        let mut r = dec_exec(n / 10);
        r.push(c);
        r
    }
}

/// `s` with zeros in front up to `w` characters.
pub fn zero_pad_exec(s: Vec<char>, w: usize) -> (r: Vec<char>)
    ensures
        r@ == zero_pad(s@, w as int),
{
    if s.len() >= w {
        return s;
    }
    let mut r: Vec<char> = Vec::new();
    let k = w - s.len();
    while r.len() < k
        invariant
            r.len() <= k,
            forall|i: int| 0 <= i < r.len() ==> r@[i] == '0',
        decreases k - r.len(),
    {
        r.push('0');
    }
    let mut i: usize = 0;
    while i < s.len()
        invariant
            i <= s.len(),
            r@ == Seq::new(k as nat, |j: int| '0') + s@.take(i as int),
        decreases s.len() - i,
    {
        proof {
            if i == 0 {
                assert(r@ =~= Seq::new(k as nat, |j: int| '0') + s@.take(0));
            }
        }
        r.push(s[i]);
        i += 1;
    }
    proof {
        if s.len() == 0 {
            assert(r@ =~= Seq::new(k as nat, |j: int| '0') + s@);
        }
        assert(s@.take(s.len() as int) =~= s@);
    }
    r
}

/// `format!("{:0w}", n)` for a signed number.
pub fn fmt_i64(n: i64, w: usize) -> (r: Vec<char>)
    requires
        n > i64::MIN,
        w >= 1,
    ensures
        r@ == fmt_int(n as int, w as int),
{
    if n < 0 {
        let m = (-n) as u64;
        let d = dec_exec(m);
        let p = zero_pad_exec(d, w - 1);
        let mut r = vec!['-'];
        let mut i: usize = 0;
        while i < p.len()
            invariant
                i <= p.len(),
                r@ == seq!['-'] + p@.take(i as int),
            decreases p.len() - i,
        {
            r.push(p[i]);
            i += 1;
        }
        proof {
            assert(p@.take(p.len() as int) =~= p@);
        }
        r
    } else {
        let d = dec_exec(n as u64);
        zero_pad_exec(d, w)
    }
}

/// `n.to_string()`.
pub fn fmt_u64(n: u64) -> (r: Vec<char>)
    ensures
        r@ == fmt_int(n as int, 0),
{
    let d = dec_exec(n);
    proof {
        lemma_dec_len(n as nat);
    }
    d
}

/// Floor division (`div_euclid` for a positive divisor).
pub fn div_floor(a: i64, b: i64) -> (q: i64)
    requires
        b > 0,
        a > i64::MIN,
    ensures
        q == a / b,
        a - q * b == a % b,
        0 <= a % b < b,
{
    if a >= 0 {
        let ua = a as u64;
        let ub = b as u64;
        let uq = ua / ub;
        let ur = ua % ub;
        proof {
            vstd::arithmetic::div_mod::lemma_fundamental_div_mod(ua as int, ub as int);
            vstd::arithmetic::div_mod::lemma_fundamental_div_mod_converse(a as int, b as int, uq as int, ur as int);
        }
        uq as i64
    } else {
        let na = (-a) as u64;
        let ub = b as u64;
        let x = na + ub - 1;
        let t = x / ub;
        let r = x % ub;
        proof {
            vstd::arithmetic::div_mod::lemma_fundamental_div_mod(x as int, ub as int);
            assert(x as int == ub as int * t as int + r as int);
            assert(t as int <= na as int) by (nonlinear_arith)
                requires
                    x as int == ub as int * t as int + r as int,
                    x as int == na as int + ub as int - 1,
                    ub as int >= 1,
                    na as int >= 1,
                    r as int >= 0,
            ;
            assert(a as int == (-(t as int)) * (b as int) + (b as int - 1 - r as int)) by (nonlinear_arith)
                requires
                    x as int == ub as int * t as int + r as int,
                    x as int == -(a as int) + b as int - 1,
                    ub as int == b as int,
            ;
            vstd::arithmetic::div_mod::lemma_fundamental_div_mod_converse(
                a as int,
                b as int,
                -(t as int),
                b as int - 1 - r as int,
            );
        }
        -(t as i64)
    }
}

} // verus!
