//! Temporary-file name formatting: a file name with `".tmp"` and a decimal
//! counter appended. Probing the filesystem for an unused candidate is the
//! caller's business; only the name formatting is specified here.

use vstd::prelude::*;

verus! {

/// Decimal digit character of a value below ten.
pub open spec fn digit_char(n: nat) -> char
    recommends
        n < 10,
{
    if n == 0 {
        '0'
    } else if n == 1 {
        '1'
    } else if n == 2 {
        '2'
    } else if n == 3 {
        '3'
    } else if n == 4 {
        '4'
    } else if n == 5 {
        '5'
    } else if n == 6 {
        '6'
    } else if n == 7 {
        '7'
    } else if n == 8 {
        '8'
    } else {
        '9'
    }
}

/// Decimal representation of `n`, most significant digit first, without
/// leading zeros (a single `'0'` for zero itself).
pub open spec fn dec_chars(n: nat) -> Seq<char>
    decreases n,
{
    if n < 10 {
        seq![digit_char(n)]
    } else {
        dec_chars(n / 10) + seq![digit_char(n % 10)]
    }
}

/// The digit characters of collected digit values, least significant value
/// first, read back most significant first.
spec fn rev_digit_chars(ds: Seq<u64>) -> Seq<char> {
    Seq::new(ds.len(), |j: int| digit_char(ds[ds.len() - 1 - j] as nat))
}

/// The one-character string of a decimal digit value.
fn digit_str(v: u64) -> (r: &'static str)
    requires
        v < 10,
    ensures
        r@ == seq![digit_char(v as nat)],
{
    proof {
        reveal_strlit("0");
        reveal_strlit("1");
        reveal_strlit("2");
        reveal_strlit("3");
        reveal_strlit("4");
        reveal_strlit("5");
        reveal_strlit("6");
        reveal_strlit("7");
        reveal_strlit("8");
        reveal_strlit("9");
    }
    let r = if v == 0 {
        "0"
    } else if v == 1 {
        "1"
    } else if v == 2 {
        "2"
    } else if v == 3 {
        "3"
    } else if v == 4 {
        "4"
    } else if v == 5 {
        "5"
    } else if v == 6 {
        "6"
    } else if v == 7 {
        "7"
    } else if v == 8 {
        "8"
    } else {
        "9"
    };
    proof {
        assert(r@ =~= seq![digit_char(v as nat)]);
    }
    r
}

/// Candidate temporary-file name: `file_name` with `".tmp"` and the decimal
/// counter `attempt` appended.
pub fn tmp_path(file_name: &str, attempt: u64) -> (r: String)
    ensures
        r@ == file_name@ + seq!['.', 't', 'm', 'p'] + dec_chars(attempt as nat),
{
    let mut s = file_name.to_owned();
    s.append(".tmp");
    proof {
        reveal_strlit(".tmp");
        assert(s@ =~= file_name@ + seq!['.', 't', 'm', 'p']);
    }
    let ghost prefix = s@;
    if attempt == 0 {
        s.append("0");
        proof {
            reveal_strlit("0");
            assert(s@ =~= (file_name@ + seq!['.', 't', 'm', 'p']) + dec_chars(attempt as nat));
        }
        return s;
    }
    let mut digits: Vec<u64> = Vec::new();
    let mut n: u64 = attempt;
    while n > 0
        invariant
            forall|j: int| 0 <= j < digits@.len() ==> #[trigger] digits@[j] < 10,
            n > 0 ==> dec_chars(attempt as nat) == dec_chars(n as nat) + rev_digit_chars(digits@),
            n == 0 ==> digits@.len() > 0 && dec_chars(attempt as nat) == rev_digit_chars(digits@),
        decreases n,
    {
        let dgt: u64 = n % 10;
        let ghost old_digits = digits@;
        let ghost n0 = n as nat;
        digits.push(dgt);
        n = n / 10;
        proof {
            let l = old_digits.len() as int;
            assert forall|j: int| 0 <= j < l + 1 implies #[trigger] rev_digit_chars(digits@)[j] == (
            seq![digit_char((n0 % 10) as nat)] + rev_digit_chars(old_digits))[j] by {
                if j == 0 {
                    assert(digits@[l] == dgt);
                } else {
                    assert(digits@[l - j] == old_digits[l - j]);
                    assert(rev_digit_chars(old_digits)[j - 1] == digit_char(
                        old_digits[l - 1 - (j - 1)] as nat,
                    ));
                }
            }
            assert(rev_digit_chars(digits@) =~= seq![digit_char((n0 % 10) as nat)]
                + rev_digit_chars(old_digits));
            if n0 < 10 {
                assert(n0 % 10 == n0);
                assert(n0 / 10 == 0);
                assert(dec_chars(n0) == seq![digit_char(n0)]);
                assert(dec_chars(attempt as nat) =~= rev_digit_chars(digits@));
            } else {
                assert(dec_chars(n0) == dec_chars(n0 / 10) + seq![digit_char(n0 % 10)]);
                assert(n0 / 10 >= 1);
                assert((dec_chars(n0 / 10) + seq![digit_char(n0 % 10)]) + rev_digit_chars(
                    old_digits,
                ) =~= dec_chars(n0 / 10) + (seq![digit_char(n0 % 10)] + rev_digit_chars(
                    old_digits,
                )));
            }
        }
    }
    let total = digits.len();
    let mut k: usize = total;
    proof {
        assert(rev_digit_chars(digits@).take(0) =~= Seq::<char>::empty());
        assert(prefix + Seq::<char>::empty() =~= prefix);
    }
    while k > 0
        invariant
            k <= total,
            total == digits@.len(),
            forall|j: int| 0 <= j < digits@.len() ==> #[trigger] digits@[j] < 10,
            dec_chars(attempt as nat) == rev_digit_chars(digits@),
            s@ == prefix + rev_digit_chars(digits@).take(total - k),
        decreases k,
    {
        k = k - 1;
        let d: u64 = digits[k];
        let ds = digit_str(d);
        s.append(ds);
        proof {
            let l = digits@.len() as int;
            assert(rev_digit_chars(digits@)[l - k - 1] == digit_char(digits@[k as int] as nat));
            assert(rev_digit_chars(digits@).take(l - k as int) =~= rev_digit_chars(digits@).take(
                l - (k as int + 1),
            ).push(digit_char(digits@[k as int] as nat)));
            assert(s@ =~= prefix + rev_digit_chars(digits@).take(l - k as int));
        }
    }
    proof {
        assert(rev_digit_chars(digits@).take(total as int) =~= rev_digit_chars(digits@));
        assert(s@ =~= (file_name@ + seq!['.', 't', 'm', 'p']) + dec_chars(attempt as nat));
    }
    s
}

} // verus!
