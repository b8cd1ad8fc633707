use crate::digits::digits;
use crate::prime_field::GFElement;
use vstd::prelude::*;
use vstd::string::*;

verus! {

/// The character of a decimal digit.
pub open spec fn digit_char(d: int) -> char {
    if d == 0 {
        '0'
    } else if d == 1 {
        '1'
    } else if d == 2 {
        '2'
    } else if d == 3 {
        '3'
    } else if d == 4 {
        '4'
    } else if d == 5 {
        '5'
    } else if d == 6 {
        '6'
    } else if d == 7 {
        '7'
    } else if d == 8 {
        '8'
    } else {
        '9'
    }
}

/// The decimal numeral of `n`, without leading zeros.
pub open spec fn decimal(n: nat) -> Seq<char>
    decreases n,
{
    if n < 10 {
        seq![digit_char(n as int)]
    } else {
        decimal(n / 10).push(digit_char((n % 10) as int))
    }
}

/// The term `d * x^k` for a non-zero coefficient `d`: a coefficient of one is
/// left out before a power of `x`, and so are the exponents zero and one.
pub open spec fn render_term(d: int, k: int) -> Seq<char> {
    if k == 0 {
        decimal(d as nat)
    } else if k == 1 {
        if d == 1 {
            seq!['x']
        } else {
            decimal(d as nat) + seq!['*', 'x']
        }
    } else {
        if d == 1 {
            seq!['x', '^'] + decimal(k as nat)
        } else {
            decimal(d as nat) + seq!['*', 'x', '^'] + decimal(k as nat)
        }
    }
}

/// The terms of the first `n` coefficients that are not zero, highest degree
/// first, joined by `" + "`.
pub open spec fn join_terms(d: Seq<int>, n: nat) -> Seq<char>
    decreases n,
{
    if n == 0 {
        Seq::empty()
    } else {
        let before = join_terms(d, (n - 1) as nat);
        let term = render_term(d[n - 1], d.len() - n);
        if d[n - 1] == 0 {
            before
        } else if before.len() == 0 {
            term
        } else {
            before + seq![' ', '+', ' '] + term
        }
    }
}

/// The polynomial as text; `"0"` for the zero polynomial.
pub open spec fn render_polynomial(d: Seq<int>) -> Seq<char> {
    if join_terms(d, d.len()).len() == 0 {
        seq!['0']
    } else {
        join_terms(d, d.len())
    }
}

/// The numeral of one decimal digit.
fn digit_str(d: usize) -> (s: &'static str)
    requires
        d < 10,
    ensures
        s@ == seq![digit_char(d as int)],
{
    proof {
        reveal_strlit("0");
        reveal_strlit("1");
        reveal_strlit("2");
        reveal_strlit("3");
        reveal_strlit("4");
        reveal_strlit("5");
        reveal_strlit("6");
        reveal_strlit("7");
        reveal_strlit("8");
        reveal_strlit("9");
    }
    let s = if d == 0 {
        "0"
    } else if d == 1 {
        "1"
    } else if d == 2 {
        "2"
    } else if d == 3 {
        "3"
    } else if d == 4 {
        "4"
    } else if d == 5 {
        "5"
    } else if d == 6 {
        "6"
    } else if d == 7 {
        "7"
    } else if d == 8 {
        "8"
    } else {
        "9"
    };
    assert(s@ =~= seq![digit_char(d as int)]);
    s
}

/// Appends the decimal numeral of `n`.
fn push_decimal(out: &mut String, n: usize)
    ensures
        final(out)@ == old(out)@ + decimal(n as nat),
    decreases n,
{
    if n >= 10 {
        push_decimal(out, n / 10);
    }
    out.append(digit_str(n % 10));
    proof {
        if n >= 10 {
            assert(old(out)@ + decimal((n / 10) as nat) + seq![digit_char((n % 10) as int)]
                =~= old(out)@ + decimal(n as nat));
        }
    }
}

/// A term is never empty.
proof fn lemma_term_not_empty(d: int, k: int)
    ensures
        render_term(d, k).len() > 0,
{
    lemma_decimal_not_empty(d as nat);
    lemma_decimal_not_empty(k as nat);
}

/// A numeral is never empty.
proof fn lemma_decimal_not_empty(n: nat)
    ensures
        decimal(n).len() > 0,
{
}

/// Appends the term `d * x^k`.
fn push_term(out: &mut String, d: usize, k: usize)
    ensures
        final(out)@ == old(out)@ + render_term(d as int, k as int),
{
    proof {
        reveal_strlit("x");
        reveal_strlit("*x");
        reveal_strlit("x^");
        reveal_strlit("*x^");
        assert("x"@ =~= seq!['x']);
        assert("*x"@ =~= seq!['*', 'x']);
        assert("x^"@ =~= seq!['x', '^']);
        assert("*x^"@ =~= seq!['*', 'x', '^']);
    }
    if k == 0 {
        push_decimal(out, d);
    } else if k == 1 {
        if d == 1 {
            out.append("x");
        } else {
            push_decimal(out, d);
            out.append("*x");
            assert(final(out)@ =~= old(out)@ + (decimal(d as nat) + seq!['*', 'x']));
        }
    } else {
        if d == 1 {
            out.append("x^");
            push_decimal(out, k);
            assert(final(out)@ =~= old(out)@ + (seq!['x', '^'] + decimal(k as nat)));
        } else {
            push_decimal(out, d);
            out.append("*x^");
            push_decimal(out, k);
            assert(final(out)@ =~= old(out)@ + (decimal(d as nat) + seq!['*', 'x', '^']
                + decimal(k as nat)));
        }
    }
}

impl<const P: usize> GFElement<P> {
    /// The residue as a decimal numeral.
    pub fn to_string(&self) -> (r: String)
        ensures
            r@ == decimal(self@ as nat),
    {
        let mut out = String::new();
        proof {
            reveal_strlit("");
            assert(out@ =~= Seq::<char>::empty());
        }
        push_decimal(&mut out, self.value());
        assert(out@ =~= decimal(self@ as nat));
        out
    }
}

/// The polynomial with the given coefficients, highest degree first, as
/// text: the terms that are not zero, joined by `" + "`, and `"0"` where
/// there is none.
pub fn render_digits<const P: usize>(value: &[GFElement<P>]) -> (r: String)
    ensures
        r@ == render_polynomial(digits(value@)),
{
    let n = value.len();
    let ghost d = digits(value@);
    let mut out = String::new();
    let mut any = false;
    let mut i: usize = 0;
    proof {
        reveal_strlit(" + ");
        reveal_strlit("0");
        assert(" + "@ =~= seq![' ', '+', ' ']);
        assert("0"@ =~= seq!['0']);
        reveal_strlit("");
        assert(out@ =~= Seq::<char>::empty());
    }
    while i < n
        invariant
            i <= n,
            n == value.len(),
            d == digits(value@),
            out@ == join_terms(d, i as nat),
            any == (out@.len() > 0),
            " + "@ == seq![' ', '+', ' '],
        decreases n - i,
    {
        let digit = value[i].value();
        if digit != 0 {
            let ghost before = out@;
            if any {
                out.append(" + ");
            }
            push_term(&mut out, digit, n - 1 - i);
            any = true;
            proof {
                lemma_term_not_empty(digit as int, n - 1 - i);
                assert(d[i as int] == digit);
                assert(out@ =~= join_terms(d, (i + 1) as nat));
            }
        }
        i += 1;
    }
    if !any {
        out.append("0");
        assert(out@ =~= seq!['0']);
    }
    out
}

} // verus!
