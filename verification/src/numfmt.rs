use vstd::prelude::*;

verus! {

/// The character for one decimal digit.
pub open spec fn digit_char(d: int) -> char
    recommends
        0 <= d < 10,
{
    if d == 0 {
        '0'
    } else if d == 1 {
        '1'
    } else if d == 2 {
        '2'
    } else if d == 3 {
        '3'
    } else if d == 4 {
        '4'
    } else if d == 5 {
        '5'
    } else if d == 6 {
        '6'
    } else if d == 7 {
        '7'
    } else if d == 8 {
        '8'
    } else {
        '9'
    }
}

/// The decimal digits of `n`, most significant first; empty for zero.
pub open spec fn digits_of(n: nat) -> Seq<char>
    decreases n,
{
    if n == 0 {
        Seq::empty()
    } else {
        digits_of(n / 10).push(digit_char((n % 10) as int))
    }
}

/// The decimal rendering of `n`: its digits, or "0" for zero.
pub open spec fn dec_str(n: nat) -> Seq<char> {
    if n == 0 {
        seq!['0']
    } else {
        digits_of(n)
    }
}

/// Relies on String::push: appends exactly the one character.
#[verifier::external_body]
pub fn push_char(s: &mut String, c: char)
    ensures
        final(s)@ == old(s)@.push(c),
{
    s.push(c);
}

/// The character for one decimal digit.
pub fn digit_to_char(d: u64) -> (r: char)
    requires
        d < 10,
    ensures
        r == digit_char(d as int),
{
    if d == 0 {
        '0'
    } else if d == 1 {
        '1'
    } else if d == 2 {
        '2'
    } else if d == 3 {
        '3'
    } else if d == 4 {
        '4'
    } else if d == 5 {
        '5'
    } else if d == 6 {
        '6'
    } else if d == 7 {
        '7'
    } else if d == 8 {
        '8'
    } else {
        '9'
    }
}

/// Renders `n` in decimal.
pub fn u64_to_string(n: u64) -> (r: String)
    ensures
        r@ == dec_str(n as nat),
{
    let mut s = String::new();
    if n == 0 {
        push_char(&mut s, '0');
        proof {
            assert(s@ =~= seq!['0']);
        }
        return s;
    }
    let mut digits: Vec<char> = Vec::new();
    let mut m: u64 = n;
    while m > 0
        invariant
            digits_of(n as nat) == digits_of(m as nat) + digits@.reverse(),
        decreases m,
    {
        let ghost pre = digits@;
        let d = m % 10;
        digits.push(digit_to_char(d));
        m = m / 10;
        proof {
            assert(digits@.reverse() =~= seq![digit_char(d as int)] + pre.reverse());
            assert(digits_of((m * 10 + d) as nat) == digits_of(m as nat).push(
                digit_char(d as int),
            ));
            assert(digits_of(m as nat).push(digit_char(d as int)) + pre.reverse()
                =~= digits_of(m as nat) + (seq![digit_char(d as int)] + pre.reverse()));
        }
    }
    proof {
        assert(digits_of(0nat) =~= Seq::<char>::empty());
        assert(digits_of(n as nat) =~= digits@.reverse());
    }
    let total = digits.len();
    let mut k: usize = total;
    while k > 0
        invariant
            k <= total,
            total == digits@.len(),
            s@ == digits@.reverse().subrange(0, total - k),
        decreases k,
    {
        k = k - 1;
        push_char(&mut s, digits[k]);
        proof {
            assert(digits@.reverse()[total - k - 1] == digits@[k as int]);
            assert(s@ =~= digits@.reverse().subrange(0, total - k));
        }
    }
    proof {
        assert(digits@.reverse().subrange(0, total as int) =~= digits@.reverse());
    }
    s
}

/// Renders `n` in decimal.
pub fn u32_to_string(n: u32) -> (r: String)
    ensures
        r@ == dec_str(n as nat),
{
    u64_to_string(n as u64)
}

} // verus!
