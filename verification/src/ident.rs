//! Identity strings: decimal rendering for disambiguating suffixes, and the
//! derived identities used by the unfolding and complementing passes.

use vstd::prelude::*;

verus! {

/// The decimal digit character for a value below ten.
pub open spec fn digit_char(d: int) -> char {
    if d == 0 {
        '0'
    } else if d == 1 {
        '1'
    } else if d == 2 {
        '2'
    } else if d == 3 {
        '3'
    } else if d == 4 {
        '4'
    } else if d == 5 {
        '5'
    } else if d == 6 {
        '6'
    } else if d == 7 {
        '7'
    } else if d == 8 {
        '8'
    } else {
        '9'
    }
}

/// The decimal rendering of a number, most significant digit first.
pub open spec fn dec_rep(n: nat) -> Seq<char>
    decreases n,
{
    if n < 10 {
        seq![digit_char(n as int)]
    } else {
        dec_rep(n / 10) + seq![digit_char((n % 10) as int)]
    }
}

/// The identity of the `k`-th further copy of `base` made by the unfolding
/// pass: the base identity, a separator, and `k` in decimal.
pub open spec fn renamed_ident(base: Seq<char>, k: nat) -> Seq<char> {
    base + "__"@ + dec_rep(k)
}

/// The identity of the classification wrapper that the complementing pass
/// puts above a node whose identity is `s`.
pub open spec fn wrapper_ident(s: Seq<char>) -> Seq<char> {
    "c__"@ + s
}

/// The digits of `ds` as characters, last digit of `ds` first (rendering a
/// least-significant-first digit list most significant digit first).
spec fn chars_of(ds: Seq<u8>) -> Seq<char>
    decreases ds.len(),
{
    if ds.len() == 0 {
        Seq::empty()
    } else {
        seq![digit_char(ds.last() as int)] + chars_of(ds.drop_last())
    }
}

/// The one-character string for a decimal digit value.
fn digit_str(d: u8) -> (r: &'static str)
    requires
        d < 10,
    ensures
        r@ == seq![digit_char(d as int)],
{
    if d == 0 {
        proof {
            reveal_strlit("0");
        }
        "0"
    } else if d == 1 {
        proof {
            reveal_strlit("1");
        }
        "1"
    } else if d == 2 {
        proof {
            reveal_strlit("2");
        }
        "2"
    } else if d == 3 {
        proof {
            reveal_strlit("3");
        }
        "3"
    } else if d == 4 {
        proof {
            reveal_strlit("4");
        }
        "4"
    } else if d == 5 {
        proof {
            reveal_strlit("5");
        }
        "5"
    } else if d == 6 {
        proof {
            reveal_strlit("6");
        }
        "6"
    } else if d == 7 {
        proof {
            reveal_strlit("7");
        }
        "7"
    } else if d == 8 {
        proof {
            reveal_strlit("8");
        }
        "8"
    } else {
        proof {
            reveal_strlit("9");
        }
        "9"
    }
}

/// Renders a number in decimal.
pub fn usize_to_string(n: usize) -> (r: String)
    ensures
        r@ == dec_rep(n as nat),
{
    let mut digits: Vec<u8> = Vec::new();
    let mut m: usize = n;
    digits.push((m % 10) as u8);
    m = m / 10;
    proof {
        assert(digits@.len() == 1);
        assert(digits@.last() == (n % 10) as u8);
        assert(digits@.drop_last() =~= Seq::<u8>::empty());
        assert(chars_of(Seq::<u8>::empty()) == Seq::<char>::empty());
        assert(chars_of(digits@) == seq![digit_char(digits@.last() as int)] + chars_of(
            digits@.drop_last(),
        ));
        assert(chars_of(digits@) =~= seq![digit_char((n % 10) as int)]);
        if n >= 10 {
            assert(dec_rep(n as nat) == dec_rep((n / 10) as nat) + seq![
                digit_char((n % 10) as int),
            ]);
        }
    }
    while m > 0
        invariant
            forall|j: int| 0 <= j < digits@.len() ==> #[trigger] digits@[j] < 10,
            digits@.len() >= 1,
            dec_rep(n as nat) == if m == 0 {
                chars_of(digits@)
            } else {
                dec_rep(m as nat) + chars_of(digits@)
            },
        decreases m,
    {
        let d: u8 = (m % 10) as u8;
        let ghost before = digits@;
        digits.push(d);
        proof {
            assert(digits@.drop_last() =~= before);
            assert(chars_of(digits@) == seq![digit_char(d as int)] + chars_of(before));
            if m / 10 == 0 {
                assert(dec_rep(m as nat) == seq![digit_char(d as int)]);
            } else {
                assert(dec_rep(m as nat) == dec_rep((m / 10) as nat) + seq![
                    digit_char((m % 10) as int),
                ]);
                assert(dec_rep((m / 10) as nat) + chars_of(digits@) =~= (dec_rep((m / 10) as nat)
                    + seq![digit_char(d as int)]) + chars_of(before));
            }
        }
        m = m / 10;
    }

    let mut r = String::new();
    let mut k: usize = digits.len();
    proof {
        assert(digits@.take(k as int) =~= digits@);
        assert(r@ + chars_of(digits@) =~= chars_of(digits@));
    }
    while k > 0
        invariant
            k <= digits@.len(),
            forall|j: int| 0 <= j < digits@.len() ==> #[trigger] digits@[j] < 10,
            r@ + chars_of(digits@.take(k as int)) == chars_of(digits@),
        decreases k,
    {
        k -= 1;
        let ghost rv = r@;
        r.append(digit_str(digits[k]));
        proof {
            let ds = digits@;
            assert(ds.take(k + 1).drop_last() =~= ds.take(k as int));
            assert(ds.take(k + 1).last() == ds[k as int]);
            assert(chars_of(ds.take(k + 1)) == seq![digit_char(ds[k as int] as int)] + chars_of(
                ds.take(k as int),
            ));
            assert(r@ + chars_of(ds.take(k as int)) =~= rv + chars_of(ds.take(k + 1)));
        }
    }
    proof {
        assert(digits@.take(0) =~= Seq::<u8>::empty());
        assert(chars_of(Seq::<u8>::empty()) == Seq::<char>::empty());
        assert(r@ =~= r@ + chars_of(digits@.take(0)));
    }
    r
}

/// Builds the disambiguated identity for the `k`-th further copy of `base`.
pub fn renamed(base: &String, k: usize) -> (r: String)
    ensures
        r@ == renamed_ident(base@, k as nat),
{
    let mut r = base.clone();
    r.append("__");
    let ds = usize_to_string(k);
    r.append(ds.as_str());
    r
}

/// Builds the classification wrapper identity for a node identity.
pub fn wrapped(s: &String) -> (r: String)
    ensures
        r@ == wrapper_ident(s@),
{
    let mut r = String::from_str("c__");
    r.append(s.as_str());
    r
}

} // verus!
