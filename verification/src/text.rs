//! Decimal and list text of numbers, for messages.

use vstd::prelude::*;
use vstd::string::StringExecFns;

verus! {

/// The character of a decimal digit.
pub open spec fn digit_char(d: nat) -> char {
    if d == 0 {
        '0'
    } else if d == 1 {
        '1'
    } else if d == 2 {
        '2'
    } else if d == 3 {
        '3'
    } else if d == 4 {
        '4'
    } else if d == 5 {
        '5'
    } else if d == 6 {
        '6'
    } else if d == 7 {
        '7'
    } else if d == 8 {
        '8'
    } else {
        '9'
    }
}

/// The decimal text of `n`, without leading zeros.
pub open spec fn dec_text(n: nat) -> Seq<char>
    decreases n,
{
    if n < 10 {
        seq![digit_char(n)]
    } else {
        dec_text(n / 10).push(digit_char(n % 10))
    }
}

/// `true` or `false`.
pub open spec fn bool_text(b: bool) -> Seq<char> {
    if b {
        seq!['t', 'r', 'u', 'e']
    } else {
        seq!['f', 'a', 'l', 's', 'e']
    }
}

/// The items of `xs` from position `k` on, each in decimal, separated by
/// a comma and a space.
pub open spec fn list_items_text(xs: Seq<usize>, k: int) -> Seq<char>
    decreases xs.len() - k,
{
    if k < 0 || k >= xs.len() {
        Seq::empty()
    } else if k == xs.len() - 1 {
        dec_text(xs[k] as nat)
    } else {
        dec_text(xs[k] as nat) + seq![',', ' '] + list_items_text(xs, k + 1)
    }
}

/// The list `xs` in brackets, as `[6, 4]`.
pub open spec fn list_text(xs: Seq<usize>) -> Seq<char> {
    seq!['['] + list_items_text(xs, 0) + seq![']']
}

/// Appends the decimal digit `d`.
fn push_digit(s: &mut String, d: usize)
    requires
        d < 10,
    ensures
        final(s)@ == old(s)@.push(digit_char(d as nat)),
{
    proof {
        reveal_strlit("0");
        reveal_strlit("1");
        reveal_strlit("2");
        reveal_strlit("3");
        reveal_strlit("4");
        reveal_strlit("5");
        reveal_strlit("6");
        reveal_strlit("7");
        reveal_strlit("8");
        reveal_strlit("9");
    }
    if d == 0 {
        s.append("0");
    } else if d == 1 {
        s.append("1");
    } else if d == 2 {
        s.append("2");
    } else if d == 3 {
        s.append("3");
    } else if d == 4 {
        s.append("4");
    } else if d == 5 {
        s.append("5");
    } else if d == 6 {
        s.append("6");
    } else if d == 7 {
        s.append("7");
    } else if d == 8 {
        s.append("8");
    } else {
        s.append("9");
    }
}

/// Appends `n` in decimal.
pub fn push_usize(s: &mut String, n: usize)
    ensures
        final(s)@ == old(s)@ + dec_text(n as nat),
    decreases n,
{
    if n < 10 {
        push_digit(s, n);
        assert(dec_text(n as nat) == seq![digit_char(n as nat)]);
        assert(old(s)@.push(digit_char(n as nat)) =~= old(s)@ + seq![digit_char(n as nat)]);
    } else {
        push_usize(s, n / 10);
        push_digit(s, n % 10);
        assert(old(s)@ + dec_text((n / 10) as nat) + seq![digit_char((n % 10) as nat)] =~= old(s)@ + dec_text(n as nat));
    }
}

/// Appends `true` or `false`.
pub fn push_bool(s: &mut String, b: bool)
    ensures
        final(s)@ == old(s)@ + bool_text(b),
{
    proof {
        reveal_strlit("true");
        reveal_strlit("false");
    }
    if b {
        s.append("true");
    } else {
        s.append("false");
    }
}

/// Appends the list `xs` in brackets (see `list_text`).
pub fn push_usize_list(s: &mut String, xs: &[usize])
    ensures
        final(s)@ == old(s)@ + list_text(xs@),
{
    proof {
        reveal_strlit("[");
        reveal_strlit("]");
        reveal_strlit(", ");
    }
    s.append("[");
    let n = xs.len();
    let ghost s0 = old(s)@ + seq!['['];
    let mut k: usize = 0;
    while k < n
        invariant
            n == xs@.len(),
            k <= n,
            s@ + list_items_text(xs@, k as int) == s0 + list_items_text(xs@, 0),
        decreases n - k,
    {
        let ghost sb = s@;
        push_usize(s, xs[k]);
        if k + 1 < n {
            s.append(", ");
            assert(list_items_text(xs@, k as int) == dec_text(xs@[k as int] as nat) + seq![',', ' '] + list_items_text(xs@, k + 1));
            proof { reveal_strlit(", "); }
            assert(", "@ =~= seq![',', ' ']);
            assert(sb + list_items_text(xs@, k as int) =~= s@ + list_items_text(xs@, k + 1));
        } else {
            assert(list_items_text(xs@, k + 1) == Seq::<char>::empty());
            assert(list_items_text(xs@, k as int) == dec_text(xs@[k as int] as nat));
            assert(sb + list_items_text(xs@, k as int) =~= s@ + list_items_text(xs@, k + 1));
        }
        k += 1;
    }
    assert(list_items_text(xs@, n as int) == Seq::<char>::empty());
    assert(s@ =~= s@ + list_items_text(xs@, n as int));
    s.append("]");
    assert(old(s)@ + list_text(xs@) =~= s0 + list_items_text(xs@, 0) + seq![']']);
}

} // verus!
