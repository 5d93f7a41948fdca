use vstd::prelude::*;

verus! {

/// The character of a decimal digit.
pub open spec fn digit_char(d: int) -> char {
    (48u8 + d as u8) as char
}

/// The decimal digits of `n`, most significant first, without padding.
pub open spec fn decimal_digits(n: nat) -> Seq<char>
    decreases n,
{
    if n < 10 {
        seq![digit_char(n as int)]
    } else {
        decimal_digits(n / 10).push(digit_char((n % 10) as int))
    }
}

/// The lowest digits of `n`, least significant first, and what is left of
/// `n` above them, give back the digits of `n`.
proof fn lemma_digits_split(n: nat, low: Seq<char>, rest: nat)
    requires
        rest > 0,
        decimal_digits(n) == decimal_digits(rest) + low.reverse(),
    ensures
        rest >= 10 ==> decimal_digits(n) == decimal_digits(rest / 10) + low.push(
            digit_char((rest % 10) as int),
        ).reverse(),
        rest < 10 ==> decimal_digits(n) == low.push(digit_char(rest as int)).reverse(),
{
    let d = digit_char((rest % 10) as int);
    let more = low.push(d);
    assert(more.reverse() =~= seq![d] + low.reverse());
    if rest >= 10 {
        assert(decimal_digits(rest) =~= decimal_digits(rest / 10) + seq![d]);
        assert(decimal_digits(n) =~= decimal_digits(rest / 10) + more.reverse());
    } else {
        assert(decimal_digits(n) =~= more.reverse());
    }
}

/// Appends the decimal digits of `n` to `out`.
pub fn push_decimal(out: &mut Vec<char>, n: usize)
    ensures
        final(out)@ == old(out)@ + decimal_digits(n as nat),
{
    let mut low: Vec<char> = Vec::new();
    let mut rest: usize = n;
    proof {
        assert(decimal_digits(n as nat) =~= decimal_digits(rest as nat) + low@.reverse());
    }
    while rest >= 10
        invariant
            rest > 0 || n == 0,
            rest <= n,
            decimal_digits(n as nat) == decimal_digits(rest as nat) + low@.reverse(),
        decreases rest,
    {
        proof {
            lemma_digits_split(n as nat, low@, rest as nat);
        }
        let d: u8 = (rest % 10) as u8;
        low.push((48u8 + d) as char);
        rest = rest / 10;
    }
    let d: u8 = rest as u8;
    let ghost high = seq![digit_char(rest as int)];
    assert(decimal_digits(rest as nat) =~= high);
    out.push((48u8 + d) as char);
    let ghost base = old(out)@ + high;
    let mut k: usize = low.len();
    while k > 0
        invariant
            k <= low@.len(),
            out@ == base + low@.reverse().take(low@.len() - k),
        decreases k,
    {
        k = k - 1;
        out.push(low[k]);
        proof {
            let r = low@.reverse();
            assert(r.take(low@.len() - k) =~= r.take(low@.len() - k - 1).push(low@[k as int]));
        }
    }
    proof {
        let r = low@.reverse();
        assert(r.take(low@.len() as int) =~= r);
        assert(out@ =~= old(out)@ + decimal_digits(n as nat));
    }
}

} // verus!
