//! Numbers as decimal text.

use vstd::prelude::*;
use vstd::arithmetic::power::lemma_pow1;
use vstd::arithmetic::power::lemma_pow_adds;
use vstd::arithmetic::power::pow;
use vstd::slice::slice_to_vec;

verus! {

/// The byte `0`; the other digits follow it.
pub const DIGIT_ZERO: u8 = 48;

/// The byte `9`.
pub const DIGIT_NINE: u8 = 57;

/// The byte that pads a field on the left.
pub const SPACE: u8 = 32;

/// The byte for the digit `d`, where `d` is below ten.
pub open spec fn digit(d: nat) -> u8 {
    (DIGIT_ZERO + d) as u8
}

/// The decimal digits of `n`, most significant first; none for zero.
pub open spec fn digits(n: nat) -> Seq<u8>
    decreases n,
{
    if n == 0 {
        Seq::empty()
    } else {
        digits(n / 10).push(digit(n % 10))
    }
}

/// `n` in decimal, without sign or leading zeros; zero is `0`.
pub open spec fn decimal(n: nat) -> Seq<u8> {
    if n == 0 {
        seq![DIGIT_ZERO]
    } else {
        digits(n)
    }
}

/// The number that decimal text stands for.
pub open spec fn decimal_value(text: Seq<u8>) -> nat
    decreases text.len(),
{
    if text.len() == 0 {
        0
    } else {
        decimal_value(text.drop_last()) * 10 + (text.last() - DIGIT_ZERO) as nat
    }
}

/// The decimal text that follows `s` in counting order: trailing nines turn
/// to zeros and the digit before them goes up by one.
pub open spec fn successor(s: Seq<u8>) -> Seq<u8>
    decreases s.len(),
{
    if s.len() == 0 {
        seq![digit(1)]
    } else if s.last() == DIGIT_NINE {
        successor(s.drop_last()).push(DIGIT_ZERO)
    } else {
        s.drop_last().push((s.last() + 1) as u8)
    }
}

/// `text` moved to the right end of a field of `width` bytes, spaces before
/// it; a text that is longer than the field is left as it is.
pub open spec fn right_justified(text: Seq<u8>, width: nat) -> Seq<u8> {
    Seq::new(
        if text.len() < width {
            (width - text.len()) as nat
        } else {
            0
        },
        |i: int| SPACE,
    ) + text
}

/// Decimal text is made of digits only, and is never empty.
pub proof fn lemma_decimal_digits(n: nat)
    ensures
        decimal(n).len() > 0,
        n > 0 ==> decimal(n)[0] != DIGIT_ZERO,
        forall|i: int| 0 <= i < decimal(n).len() ==> DIGIT_ZERO <= #[trigger] decimal(n)[i] <= DIGIT_NINE,
    decreases n,
{
    if n >= 10 {
        lemma_decimal_digits(n / 10);
        let front = digits(n / 10);
        assert(decimal(n) == front.push(digit(n % 10)));
        assert forall|i: int| 0 <= i < decimal(n).len() implies DIGIT_ZERO <= #[trigger] decimal(
            n,
        )[i] <= DIGIT_NINE by {
            if i < front.len() {
                assert(decimal(n)[i] == decimal(n / 10)[i]);
            }
        }
        assert(decimal(n)[0] == decimal(n / 10)[0]);
    } else if n > 0 {
        assert(digits(n / 10) =~= Seq::<u8>::empty());
        assert(decimal(n) =~= seq![digit(n)]);
    }
}

/// Decimal text stands for the number that it was written for: no two
/// numbers have the same text.
pub proof fn lemma_decimal_value(n: nat)
    ensures
        decimal_value(decimal(n)) == n,
    decreases n,
{
    if n == 0 {
        assert(seq![DIGIT_ZERO].drop_last() =~= Seq::<u8>::empty());
        assert(decimal_value(Seq::<u8>::empty()) == 0);
    } else {
        let front = digits(n / 10);
        assert(digits(n).drop_last() =~= front);
        if n / 10 == 0 {
            assert(decimal_value(front) == 0);
        } else {
            lemma_decimal_value(n / 10);
        }
    }
}

/// A number below ten to the power of `width` has no more than `width`
/// digits.
pub proof fn lemma_decimal_len(n: nat, width: nat)
    requires
        width >= 1,
        n < pow(10, width),
    ensures
        decimal(n).len() <= width,
    decreases width,
{
    lemma_pow1(10);
    lemma_pow_adds(10, 1, (width - 1) as nat);
    if n >= 10 {
        if width == 1 {
            assert(false);
        } else {
            let rest = pow(10, (width - 1) as nat);
            assert(n / 10 < rest) by (nonlinear_arith)
                requires
                    n < 10 * rest,
            ;
            lemma_decimal_len(n / 10, (width - 1) as nat);
        }
    } else if n > 0 {
        assert(digits(n / 10) =~= Seq::<u8>::empty());
    }
}

/// Counting up by one is taking the successor of the text.
pub proof fn lemma_decimal_successor(n: nat)
    ensures
        decimal(n + 1) == successor(decimal(n)),
    decreases n,
{
    if n == 0 {
        assert(digits(0) =~= Seq::<u8>::empty());
        assert(seq![DIGIT_ZERO].drop_last() =~= Seq::<u8>::empty());
        assert(decimal(1) =~= seq![digit(1)]);
        assert(successor(decimal(0)) =~= seq![digit(1)]);
    } else {
        let front = digits(n / 10);
        assert(digits(n) == front.push(digit(n % 10)));
        assert(digits(n).drop_last() =~= front);
        if n % 10 == 9 {
            assert((n + 1) / 10 == n / 10 + 1 && (n + 1) % 10 == 0);
            if n / 10 == 0 {
                assert(successor(front) =~= digits(1));
            } else {
                lemma_decimal_successor(n / 10);
            }
        } else {
            assert((n + 1) / 10 == n / 10 && (n + 1) % 10 == n % 10 + 1);
        }
    }
}

/// Writes `n` in decimal.
pub fn render(n: u64) -> (text: Vec<u8>)
    ensures
        text@ == decimal(n as nat),
{
    let mut text: Vec<u8> = Vec::new();
    if n == 0 {
        text.push(DIGIT_ZERO);
        assert(text@ =~= decimal(0));
        return text;
    }
    let mut rest: u64 = n;
    assert(digits(n as nat) + text@ =~= digits(n as nat));
    while rest > 0
        invariant
            digits(n as nat) == digits(rest as nat) + text@,
        decreases rest,
    {
        let d: u8 = (rest % 10) as u8;
        let ghost front = digits((rest / 10) as nat);
        assert(front.push(digit((rest % 10) as nat)) + text@ =~= front + text@.insert(
            0,
            (DIGIT_ZERO + d) as u8,
        ));
        text.insert(0, DIGIT_ZERO + d);
        rest = rest / 10;
    }
    assert(digits(0) + text@ =~= text@);
    text
}

/// Appends `text`, right-justified in a field of `width` bytes, to `out`.
pub fn push_right_justified(out: &mut Vec<u8>, text: &[u8], width: usize)
    ensures
        final(out)@ == old(out)@ + right_justified(text@, width as nat),
{
    let ghost start = out@;
    let mut len: usize = text.len();
    assert(out@ =~= start + Seq::new(0, |i: int| SPACE));
    while len < width
        invariant
            text@.len() <= len,
            len <= width || len == text@.len(),
            out@ == start + Seq::new((len - text@.len()) as nat, |i: int| SPACE),
        decreases width - len,
    {
        out.push(SPACE);
        len += 1;
        assert(out@ =~= start + Seq::new((len - text@.len()) as nat, |i: int| SPACE));
    }
    let ghost padded = out@;
    out.extend_from_slice(text);
    assert(out@ =~= padded + text@);
    assert(out@ =~= start + right_justified(text@, width as nat));
}

/// A counter that never overflows: it keeps its value as decimal text.
pub struct Counter {
    text: Vec<u8>,
    value: Ghost<nat>,
}

impl Counter {
    #[verifier::type_invariant]
    spec fn well_formed(self) -> bool {
        self.text@ == decimal(self.value@)
    }

    /// The number that the counter stands at.
    pub closed spec fn value(&self) -> nat {
        self.value@
    }

    /// A counter that stands at `start`.
    pub fn new(start: u64) -> (counter: Self)
        ensures
            counter.value() == start,
    {
        Counter { text: render(start), value: Ghost(start as nat) }
    }

    /// The value in decimal.
    pub fn text(&self) -> (text: &[u8])
        ensures
            text@ == decimal(self.value()),
    {
        proof {
            use_type_invariant(self);
        }
        self.text.as_slice()
    }

    /// Counts up by one.
    pub fn increment(&mut self)
        ensures
            final(self).value() == old(self).value() + 1,
    {
        proof {
            use_type_invariant(&*self);
            lemma_decimal_digits(self.value@);
            lemma_decimal_successor(self.value@);
        }
        let ghost before = self.text@;
        let mut text: Vec<u8> = slice_to_vec(self.text.as_slice());
        let mut i: usize = text.len();
        assert(before.take(i as int) + text@.skip(i as int) =~= before);
        while i > 0 && text[i - 1] == DIGIT_NINE
            invariant
                i <= text@.len() == before.len(),
                text@.take(i as int) == before.take(i as int),
                successor(before) == successor(before.take(i as int)) + text@.skip(i as int),
            decreases i,
        {
            let ghost head = before.take(i as int);
            assert(head.last() == text@[i - 1]);
            assert(head.drop_last() =~= before.take(i - 1));
            let ghost tail = text@.skip(i as int);
            text.set(i - 1, DIGIT_ZERO);
            i -= 1;
            assert(text@.skip(i as int) =~= seq![DIGIT_ZERO] + tail);
            assert(successor(before.take(i as int)).push(DIGIT_ZERO) + tail =~= successor(
                before.take(i as int),
            ) + text@.skip(i as int));
            assert(text@.take(i as int) =~= before.take(i as int));
        }
        let ghost tail = text@.skip(i as int);
        if i == 0 {
            assert(before.take(0) =~= Seq::<u8>::empty());
            text.insert(0, DIGIT_ZERO + 1);
            assert(text@ =~= seq![digit(1)] + tail);
        } else {
            let ghost head = before.take(i as int);
            assert(head.last() == text@[i - 1]);
            assert(head.last() == before[i - 1]);
            let d: u8 = text[i - 1];
            text.set(i - 1, d + 1);
            assert(text@ =~= head.drop_last().push((head.last() + 1) as u8) + tail);
        }
        *self = Counter { text, value: Ghost((self.value@ + 1) as nat) };
    }
}

} // verus!
