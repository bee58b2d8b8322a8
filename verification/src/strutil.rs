//! Small verified string builders: decimal rendering of numbers and joining
//! of ID lists. The error and warning messages of the other modules are
//! specified with these.

use vstd::prelude::*;

verus! {

/// The decimal digit character for a value below ten.
pub open spec fn dec_digit(d: int) -> char {
    if d == 0 {
        '0'
    } else if d == 1 {
        '1'
    } else if d == 2 {
        '2'
    } else if d == 3 {
        '3'
    } else if d == 4 {
        '4'
    } else if d == 5 {
        '5'
    } else if d == 6 {
        '6'
    } else if d == 7 {
        '7'
    } else if d == 8 {
        '8'
    } else {
        '9'
    }
}

/// The decimal rendering of a non-negative number, without leading zeros
/// (a single zero renders as "0").
pub open spec fn dec_str(v: int) -> Seq<char>
    decreases v,
{
    if v < 10 {
        seq![dec_digit(v)]
    } else {
        dec_str(v / 10).push(dec_digit(v % 10))
    }
}

/// Appends the decimal digit `d` to `s`.
fn append_digit(s: &mut String, d: u32)
    requires
        d < 10,
    ensures
        final(s)@ == old(s)@.push(dec_digit(d as int)),
{
    let lit: &str = if d == 0 {
        "0"
    } else if d == 1 {
        "1"
    } else if d == 2 {
        "2"
    } else if d == 3 {
        "3"
    } else if d == 4 {
        "4"
    } else if d == 5 {
        "5"
    } else if d == 6 {
        "6"
    } else if d == 7 {
        "7"
    } else if d == 8 {
        "8"
    } else {
        "9"
    };
    proof {
        reveal_strlit("0");
        reveal_strlit("1");
        reveal_strlit("2");
        reveal_strlit("3");
        reveal_strlit("4");
        reveal_strlit("5");
        reveal_strlit("6");
        reveal_strlit("7");
        reveal_strlit("8");
        reveal_strlit("9");
    }
    s.append(lit);
    proof {
        assert(s@ =~= old(s)@.push(dec_digit(d as int)));
    }
}

/// Appends the decimal rendering of `v` to `s`.
pub fn append_u32(s: &mut String, v: u32)
    ensures
        final(s)@ == old(s)@ + dec_str(v as int),
{
    if v == 0 {
        append_digit(s, 0);
        proof {
            assert(s@ =~= old(s)@ + dec_str(0));
        }
        return ;
    }
    let mut digits: Vec<u32> = Vec::new();
    let mut x: u32 = v;
    loop
        invariant_except_break
            x > 0,
            dec_str(v as int) =~= dec_str(x as int) + digit_chars_rev(digits@),
        invariant
            x <= v,
            forall|i: int| 0 <= i < digits@.len() ==> (#[trigger] digits@[i]) < 10,
        ensures
            dec_str(v as int) =~= digit_chars_rev(digits@),
            forall|i: int| 0 <= i < digits@.len() ==> (#[trigger] digits@[i]) < 10,
            digits@.len() > 0,
        decreases x,
    {
        let d = x % 10;
        let x2 = x / 10;
        proof {
            if x >= 10 {
                assert(dec_str(x as int) == dec_str(x as int / 10).push(
                    dec_digit(x as int % 10),
                ));
                assert(dec_str(x2 as int).push(dec_digit(d as int)) + digit_chars_rev(digits@)
                    =~= dec_str(x2 as int) + (seq![dec_digit(d as int)] + digit_chars_rev(
                    digits@,
                )));
            }
            if x < 10 {
                assert(dec_str(x as int) =~= seq![dec_digit(d as int)]);
            }
            assert(digit_chars_rev(digits@.push(d)) =~= seq![dec_digit(d as int)]
                + digit_chars_rev(digits@));
        }
        proof {
            let ds2 = digits@.push(d);
            if x >= 10 {
                assert(dec_str(v as int) =~= dec_str(x2 as int) + digit_chars_rev(ds2)) by {
                    assert(dec_str(v as int) == dec_str(x as int) + digit_chars_rev(digits@));
                    assert(dec_str(x as int) == dec_str(x2 as int).push(dec_digit(d as int)));
                    assert(digit_chars_rev(ds2) == seq![dec_digit(d as int)] + digit_chars_rev(
                        digits@,
                    ));
                }
            } else {
                assert(x2 == 0);
                assert(dec_str(v as int) =~= Seq::<char>::empty() + digit_chars_rev(ds2)) by {
                    assert(dec_str(v as int) == dec_str(x as int) + digit_chars_rev(digits@));
                    assert(dec_str(x as int) == seq![dec_digit(d as int)]);
                    assert(digit_chars_rev(ds2) == seq![dec_digit(d as int)] + digit_chars_rev(
                        digits@,
                    ));
                }
            }
        }
        digits.push(d);
        x = x2;
        if x == 0 {
            proof {
                assert(dec_str(v as int) =~= digit_chars_rev(digits@));
            }
            break;
        }
    }
    let mut i: usize = digits.len();
    while i > 0
        invariant
            0 <= i <= digits@.len(),
            forall|j: int| 0 <= j < digits@.len() ==> (#[trigger] digits@[j]) < 10,
            s@ =~= old(s)@ + rendered_suffix(digits@, i as int),
        decreases i,
    {
        i = i - 1;
        proof {
            assert(rendered_suffix(digits@, i as int) =~= rendered_suffix(
                digits@,
                i as int + 1,
            ).push(dec_digit(digits@[i as int] as int)));
        }
        append_digit(s, digits[i]);
    }
    proof {
        assert(rendered_suffix(digits@, 0) =~= digit_chars_rev(digits@));
        assert(s@ =~= old(s)@ + dec_str(v as int));
    }
}

/// The digits of `ds` as characters, most significant last pushed first:
/// position `i` holds the digit at `ds[len - 1 - i]`.
pub open spec fn digit_chars_rev(ds: Seq<u32>) -> Seq<char> {
    Seq::new(ds.len(), |i: int| dec_digit(ds[ds.len() - 1 - i] as int))
}

/// The digit characters of `ds[i..]` read from the back toward `i`.
pub open spec fn rendered_suffix(ds: Seq<u32>, i: int) -> Seq<char> {
    Seq::new((ds.len() - i) as nat, |k: int| dec_digit(ds[ds.len() - 1 - k] as int))
}

/// `items` joined by `sep`, in order, with no leading or trailing separator.
pub open spec fn join_with(items: Seq<Seq<char>>, sep: Seq<char>) -> Seq<char>
    decreases items.len(),
{
    if items.len() == 0 {
        Seq::empty()
    } else if items.len() == 1 {
        items[0]
    } else {
        join_with(items.drop_last(), sep) + sep + items[items.len() - 1]
    }
}

/// Joins the given strings with `sep`, as `join_with` specifies.
pub fn join_strings(items: &Vec<String>, sep: &str) -> (r: String)
    ensures
        r@ == join_with(items@.map(|_i: int, s: String| s@), sep@),
{
    let ghost views = items@.map(|_i: int, s: String| s@);
    let mut r = String::new();
    let n = items.len();
    let mut i: usize = 0;
    while i < n
        invariant
            0 <= i <= n,
            n == items@.len(),
            views == items@.map(|_i: int, s: String| s@),
            r@ =~= join_with(views.take(i as int), sep@),
        decreases n - i,
    {
        proof {
            assert(views.take(i as int + 1).drop_last() =~= views.take(i as int));
            assert(views.take(i as int + 1)[i as int] == views[i as int]);
        }
        if i > 0 {
            r.append(sep);
        }
        r.append(items[i].as_str());
        proof {
            assert(r@ =~= join_with(views.take(i as int + 1), sep@));
        }
        i = i + 1;
    }
    proof {
        assert(views.take(n as int) =~= views);
    }
    r
}

/// Whether two characters are equal up to ASCII case: identical, or an
/// ASCII letter paired with its other case.
pub open spec fn ascii_eq_char(a: char, b: char) -> bool {
    ||| a == b
    ||| (65 <= a as int <= 90 && b as int == a as int + 32)
    ||| (65 <= b as int <= 90 && a as int == b as int + 32)
}

/// Whether two texts are equal up to ASCII case, character by character.
pub open spec fn ascii_eq(a: Seq<char>, b: Seq<char>) -> bool {
    a.len() == b.len() && (forall|i: int| 0 <= i < a.len() ==> ascii_eq_char(#[trigger] a[i], b[i]))
}

/// Compares two texts up to ASCII case, as `ascii_eq` states.
pub fn eq_ignore_ascii_case(a: &str, b: &str) -> (r: bool)
    ensures
        r == ascii_eq(a@, b@),
{
    let na = a.unicode_len();
    let nb = b.unicode_len();
    if na != nb {
        return false;
    }
    let mut i: usize = 0;
    while i < na
        invariant
            0 <= i <= na,
            na == a@.len(),
            na == b@.len(),
            forall|j: int| 0 <= j < i ==> ascii_eq_char(#[trigger] a@[j], b@[j]),
        decreases na - i,
    {
        let ca = a.get_char(i);
        let cb = b.get_char(i);
        let xa = ca as u32;
        let xb = cb as u32;
        let ok = ca == cb || (xa >= 65 && xa <= 90 && xb == xa + 32) || (xb >= 65 && xb <= 90
            && xa == xb + 32);
        if !ok {
            proof {
                assert(!ascii_eq_char(a@[i as int], b@[i as int]));
            }
            return false;
        }
        i = i + 1;
    }
    true
}

} // verus!
