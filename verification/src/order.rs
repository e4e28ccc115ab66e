//! The order of texts, and of the numbers that they write.
use vstd::prelude::*;

use crate::text;

verus! {

/// `a` comes before `b` as texts are ordered: at the first character in which
/// they differ, or where `b` goes on behind `a`.
pub open spec fn precedes(a: Seq<char>, b: Seq<char>) -> bool
    decreases a.len(),
{
    if b.len() == 0 {
        false
    } else if a.len() == 0 {
        true
    } else if a[0] != b[0] {
        a[0] < b[0]
    } else {
        precedes(a.drop_first(), b.drop_first())
    }
}

/// No text comes before itself.
pub proof fn lemma_not_before_itself(a: Seq<char>)
    ensures
        !precedes(a, a),
    decreases a.len(),
{
    if a.len() > 0 {
        lemma_not_before_itself(a.drop_first());
    }
}

/// What both texts open with decides nothing.
pub proof fn lemma_same_front(front: Seq<char>, a: Seq<char>, b: Seq<char>)
    ensures
        precedes(front + a, front + b) == precedes(a, b),
    decreases front.len(),
{
    if front.len() == 0 {
        assert(front + a =~= a);
        assert(front + b =~= b);
    } else {
        lemma_same_front(front.drop_first(), a, b);
        assert((front + a).drop_first() =~= front.drop_first() + a);
        assert((front + b).drop_first() =~= front.drop_first() + b);
    }
}

/// Where fronts of one length decide, what follows them does not.
pub proof fn lemma_front_decides(a: Seq<char>, x: Seq<char>, b: Seq<char>, y: Seq<char>)
    requires
        a.len() == b.len(),
        precedes(a, b),
    ensures
        precedes(a + x, b + y),
    decreases a.len(),
{
    if a[0] == b[0] {
        lemma_front_decides(a.drop_first(), x, b.drop_first(), y);
        assert((a + x).drop_first() =~= a.drop_first() + x);
        assert((b + y).drop_first() =~= b.drop_first() + y);
    }
}

/// Two texts in two parts each, the first parts of one length: they come in the
/// order of the first parts, or where those are the same, of the second.
pub proof fn lemma_parts_decide(a: Seq<char>, x: Seq<char>, b: Seq<char>, y: Seq<char>)
    requires
        a.len() == b.len(),
        precedes(a, b) || a == b && precedes(x, y),
    ensures
        precedes(a + x, b + y),
{
    if a == b {
        lemma_not_before_itself(a);
        lemma_same_front(a, x, y);
    } else {
        lemma_front_decides(a, x, b, y);
    }
}

/// `n` has no more than `width` digits.
pub open spec fn fits(n: nat, width: nat) -> bool
    decreases width,
{
    if width <= 1 {
        n < 10
    } else {
        fits(n / 10, (width - 1) as nat)
    }
}

/// The last digit of a number that is filled up with zeros stands apart.
pub proof fn lemma_padded_step(n: nat, width: nat)
    requires
        width >= 2,
    ensures
        text::padded(n, width) == text::padded(n / 10, (width - 1) as nat) + seq![
            text::digit(n % 10),
        ],
{
    let front = text::padded(n / 10, (width - 1) as nat);
    if n < 10 {
        assert(text::decimal(0) =~= seq!['0']);
    }
    assert(text::padded(n, width) =~= front + seq![text::digit(n % 10)]);
}

/// A number that fits is filled up to the width.
pub proof fn lemma_padded_len(n: nat, width: nat)
    requires
        width >= 1,
        fits(n, width),
    ensures
        text::padded(n, width).len() == width,
    decreases width,
{
    if width >= 2 {
        lemma_padded_step(n, width);
        lemma_padded_len(n / 10, (width - 1) as nat);
    }
}

/// Numbers of one width come in the order of their texts.
pub proof fn lemma_padded_order(m: nat, n: nat, width: nat)
    requires
        width >= 1,
        m < n,
        fits(n, width),
    ensures
        fits(m, width),
        precedes(text::padded(m, width), text::padded(n, width)),
    decreases width,
{
    reveal_with_fuel(precedes, 2);
    let last_m = seq![text::digit(m % 10)];
    let last_n = seq![text::digit(n % 10)];
    if width == 1 {
        assert(text::padded(m, 1) =~= last_m);
        assert(text::padded(n, 1) =~= last_n);
    } else {
        let shorter = (width - 1) as nat;
        lemma_padded_step(m, width);
        lemma_padded_step(n, width);
        if m / 10 < n / 10 {
            lemma_padded_order(m / 10, n / 10, shorter);
        }
        lemma_padded_len(m / 10, shorter);
        lemma_padded_len(n / 10, shorter);
        lemma_parts_decide(
            text::padded(m / 10, shorter),
            last_m,
            text::padded(n / 10, shorter),
            last_n,
        );
    }
}

/// Filled up with zeros or not, digits write their number.
pub proof fn lemma_padded_value(n: nat, width: nat)
    ensures
        text::value(text::padded(n, width)) == n,
{
    let digits = text::decimal(n);
    text::lemma_decimal(n);
    if digits.len() < width {
        lemma_zeros_in_front((width - digits.len()) as nat, digits);
    }
}

/// Zeros in front do not change a number.
proof fn lemma_zeros_in_front(count: nat, digits: Seq<char>)
    ensures
        text::value(Seq::new(count, |i: int| '0') + digits) == text::value(digits),
    decreases count + digits.len(),
{
    let zeros = Seq::new(count, |i: int| '0');
    let all = zeros + digits;
    if digits.len() > 0 {
        lemma_zeros_in_front(count, digits.drop_last());
        assert(all.drop_last() =~= zeros + digits.drop_last());
    } else if count > 0 {
        let fewer = Seq::new((count - 1) as nat, |i: int| '0');
        lemma_zeros_in_front((count - 1) as nat, digits);
        assert(all.drop_last() =~= fewer + digits);
    }
}

} // verus!
