//! Non-owning views over byte ranges: a plain byte view, a digit run that
//! tolerates interior underscore separators, and an exponent-normalized run
//! that stands for zero padding without materializing it.

use vstd::prelude::*;

use crate::from_str::{trim_back_zeros, trim_front_zeros};

verus! {

/// A non-owning, random-access view over a byte range.
#[derive(Clone, Copy, Debug)]
pub struct Bytes<'a> {
    s: &'a [u8],
}

impl<'a> View for Bytes<'a> {
    type V = Seq<u8>;

    closed spec fn view(&self) -> Seq<u8> {
        self.s@
    }
}

impl<'a> Bytes<'a> {
    /// A view over the whole of `bytes`.
    pub fn new(bytes: &'a [u8]) -> (r: Bytes<'a>)
        ensures
            r@ == bytes@,
    {
        Bytes { s: bytes }
    }

    /// How many bytes the view covers.
    pub fn len(self) -> (r: usize)
        ensures
            r == self@.len(),
    {
        self.s.len()
    }

    /// Whether the view covers nothing.
    pub fn is_empty(self) -> (r: bool)
        ensures
            r == (self@.len() == 0),
    {
        self.s.len() == 0
    }

    /// The byte at `i`.
    pub fn get(self, i: usize) -> (r: u8)
        requires
            i < self@.len(),
        ensures
            r == self@[i as int],
    {
        self.s[i]
    }

    /// The views before and from `i`.
    pub fn split(self, i: usize) -> (r: (Bytes<'a>, Bytes<'a>))
        requires
            i <= self@.len(),
        ensures
            r.0@ == self@.take(i as int),
            r.1@ == self@.skip(i as int),
    {
        let first = vstd::slice::slice_subrange(self.s, 0, i);
        let rest = vstd::slice::slice_subrange(self.s, i, self.s.len());
        proof {
            assert(first@ =~= self@.take(i as int));
            assert(rest@ =~= self@.skip(i as int));
        }
        (Bytes { s: first }, Bytes { s: rest })
    }

    /// The first byte and the view past it, when there is one.
    pub fn split_first(self) -> (r: Option<(u8, Bytes<'a>)>)
        ensures
            self@.len() == 0 ==> r is None,
            self@.len() > 0 ==> (r matches Some((b, rest)) && b == self@[0] && rest@
                == self@.skip(1)),
    {
        if self.s.len() == 0 {
            None
        } else {
            let b = self.s[0];
            let rest = vstd::slice::slice_subrange(self.s, 1, self.s.len());
            proof {
                assert(rest@ =~= self@.skip(1));
            }
            Some((b, Bytes { s: rest }))
        }
    }
}

/// The separator byte a digit run tolerates.
pub open spec fn is_sep(b: u8) -> bool {
    b == 0x5Fu8
}

/// The digit bytes of a run, with the separators dropped.
pub open spec fn digits_of(s: Seq<u8>) -> Seq<u8>
    decreases s.len(),
{
    if s.len() == 0 {
        Seq::<u8>::empty()
    } else if is_sep(s[0]) {
        digits_of(s.skip(1))
    } else {
        seq![s[0]] + digits_of(s.skip(1))
    }
}

/// Dropping separators distributes over splicing two ranges together.
pub proof fn lemma_digits_of_concat(a: Seq<u8>, b: Seq<u8>)
    ensures
        digits_of(a + b) == digits_of(a) + digits_of(b),
    decreases a.len(),
{
    if a.len() == 0 {
        assert(a + b =~= b);
        assert(digits_of(a) + digits_of(b) =~= digits_of(b));
    } else {
        lemma_digits_of_concat(a.skip(1), b);
        assert((a + b).skip(1) =~= a.skip(1) + b);
        assert((a + b)[0] == a[0]);
        assert((a + b).len() == a.len() + b.len());
        if is_sep(a[0]) {
        } else {
            assert(seq![a[0]] + (digits_of(a.skip(1)) + digits_of(b)) =~= (seq![a[0]] + digits_of(
                a.skip(1),
            )) + digits_of(b));
        }
    }
}

/// Scanning one more byte appends its digit, if it is one.
pub proof fn lemma_digits_of_take_one(s: Seq<u8>, i: int)
    requires
        0 <= i < s.len(),
    ensures
        digits_of(s.take(i + 1)) == digits_of(s.take(i)) + (if is_sep(s[i]) {
            Seq::<u8>::empty()
        } else {
            seq![s[i]]
        }),
{
    reveal_with_fuel(digits_of, 3);
    assert(s.take(i + 1) =~= s.take(i) + seq![s[i]]);
    lemma_digits_of_concat(s.take(i), seq![s[i]]);
    assert(seq![s[i]].skip(1) =~= Seq::<u8>::empty());
    if is_sep(s[i]) {
        assert(digits_of(seq![s[i]]) =~= Seq::<u8>::empty());
        assert(digits_of(s.take(i)) + Seq::<u8>::empty() =~= digits_of(s.take(i)));
    } else {
        assert(digits_of(seq![s[i]]) =~= seq![s[i]]);
    }
}

/// A whole run splits into what a scan has passed and what remains.
pub proof fn lemma_digits_of_split(s: Seq<u8>, i: int)
    requires
        0 <= i <= s.len(),
    ensures
        digits_of(s) == digits_of(s.take(i)) + digits_of(s.skip(i)),
{
    assert(s =~= s.take(i) + s.skip(i));
    lemma_digits_of_concat(s.take(i), s.skip(i));
}

/// A run never has more digits than bytes.
pub proof fn lemma_digits_of_len(s: Seq<u8>)
    ensures
        digits_of(s).len() <= s.len(),
    decreases s.len(),
{
    if s.len() > 0 {
        lemma_digits_of_len(s.skip(1));
    }
}

/// A run of digits and separators, trimmed so that neither end is a
/// separator; its digit count and separator count are carried alongside.
#[derive(Clone, Copy, Debug)]
pub struct DigitsUnds<'a> {
    s: &'a [u8],
    digits: usize,
    unds: usize,
}

impl<'a> View for DigitsUnds<'a> {
    type V = Seq<u8>;

    closed spec fn view(&self) -> Seq<u8> {
        digits_of(self.s@)
    }
}

impl<'a> DigitsUnds<'a> {
    /// The counts match the bytes, and neither terminal byte is a
    /// separator.
    pub closed spec fn wf(self) -> bool {
        &&& self.digits + self.unds == self.s@.len()
        &&& digits_of(self.s@).len() == self.digits
        &&& (self.s@.len() > 0 ==> !is_sep(self.s@[0]) && !is_sep(self.s@[self.s@.len() - 1]))
        &&& (self.digits == 0 ==> self.s@.len() == 0)
    }

    /// An empty run.
    pub fn empty() -> (r: DigitsUnds<'a>)
        ensures
            r.wf(),
            r@ == Seq::<u8>::empty(),
    {
        let slice: &'a [u8] = &[];
        proof {
            assert(slice@ =~= Seq::<u8>::empty());
        }
        DigitsUnds { s: slice, digits: 0, unds: 0 }
    }

    /// A run over `bytes`, trimmed of separators at both ends.
    pub fn new(bytes: Bytes<'a>) -> (r: DigitsUnds<'a>)
        ensures
            r.wf(),
            r@ == digits_of(bytes@),
    {
        DigitsUnds::from_slice(bytes.s)
    }

    /// A run over a plain slice, trimmed of separators at both ends.
    pub(crate) fn from_slice(bytes: &'a [u8]) -> (r: DigitsUnds<'a>)
        ensures
            r.wf(),
            r@ == digits_of(bytes@),
    {
        let ghost s0 = bytes@;
        let n = bytes.len();
        // trim separators from the front
        let mut a: usize = 0;
        proof {
            assert(s0.skip(0) =~= s0);
        }
        while a < n && bytes[a] == 0x5F
            invariant
                s0 == bytes@,
                n == s0.len(),
                0 <= a <= n,
                forall|k: int| 0 <= k < a ==> is_sep(#[trigger] s0[k]),
                digits_of(s0.skip(a as int)) == digits_of(s0),
            decreases n - a,
        {
            proof {
                assert(s0.skip(a as int).skip(1) =~= s0.skip(a + 1));
            }
            a = a + 1;
        }
        // trim separators from the back
        let mut b: usize = n;
        proof {
            assert(s0.subrange(a as int, n as int) =~= s0.skip(a as int));
        }
        while b > a && bytes[b - 1] == 0x5F
            invariant
                s0 == bytes@,
                n == s0.len(),
                0 <= a <= b <= n,
                forall|k: int| b <= k < n ==> is_sep(#[trigger] s0[k]),
                digits_of(s0.skip(a as int)) == digits_of(s0),
                digits_of(s0.subrange(a as int, b as int)) == digits_of(s0),
                a < n ==> !is_sep(s0[a as int]),
            decreases b,
        {
            proof {
                let part = s0.subrange(a as int, b as int);
                assert(part.take(part.len() - 1) =~= s0.subrange(a as int, b - 1));
                lemma_digits_of_split(part, part.len() - 1);
                assert(part.skip(part.len() - 1) =~= seq![s0[b - 1]]);
                reveal_with_fuel(digits_of, 3);
                assert(seq![s0[b - 1]].skip(1) =~= Seq::<u8>::empty());
                assert(digits_of(seq![s0[b - 1]]) =~= Seq::<u8>::empty());
                assert(digits_of(part.take(part.len() - 1)) + Seq::<u8>::empty() =~= digits_of(
                    part.take(part.len() - 1),
                ));
            }
            b = b - 1;
        }
        proof {
            assert(s0.subrange(0, a as int) + s0.skip(a as int) =~= s0);
            lemma_digits_of_split(s0, a as int);
        }
        let trimmed = vstd::slice::slice_subrange(bytes, a, b);
        let ghost st = s0.subrange(a as int, b as int);
        // count the digits
        let mut digits: usize = 0;
        let mut i: usize = 0;
        let m = b - a;
        proof {
            assert(trimmed@ =~= st);
            assert(st.take(0) =~= Seq::<u8>::empty());
        }
        while i < m
            invariant
                trimmed@ == st,
                m == st.len(),
                0 <= i <= m,
                digits == digits_of(st.take(i as int)).len(),
                digits <= i,
            decreases m - i,
        {
            proof {
                lemma_digits_of_take_one(st, i as int);
            }
            if trimmed[i] != 0x5F {
                digits = digits + 1;
            }
            i = i + 1;
        }
        proof {
            assert(st.take(m as int) =~= st);
            if digits == 0 && m > 0 {
                // a trimmed, non-empty run starts with a digit
                lemma_digits_of_split(st, 1);
                assert(st.take(1) =~= seq![st[0]]);
                assert(digits_of(seq![st[0]]) =~= seq![st[0]]);
            }
        }
        DigitsUnds { s: trimmed, digits, unds: m - digits }
    }

    /// How many digits the run holds, separators excluded.
    pub fn n_digits(self) -> (r: usize)
        requires
            self.wf(),
        ensures
            r == self@.len(),
    {
        self.digits
    }

    /// Whether the run holds no digit.
    pub fn is_empty(self) -> (r: bool)
        requires
            self.wf(),
        ensures
            r == (self@.len() == 0),
    {
        self.digits == 0
    }

    /// The runs before and from the digit at `digit_index`, counted over
    /// digits alone.
    pub fn split(self, digit_index: usize) -> (r: (DigitsUnds<'a>, DigitsUnds<'a>))
        requires
            self.wf(),
            digit_index <= self@.len(),
        ensures
            r.0.wf(),
            r.1.wf(),
            r.0@ == self@.take(digit_index as int),
            r.1@ == self@.skip(digit_index as int),
    {
        let ghost s0 = self.s@;
        if digit_index == self.digits {
            proof {
                assert(self@.take(digit_index as int) =~= self@);
                assert(self@.skip(digit_index as int) =~= Seq::<u8>::empty());
            }
            return (self, DigitsUnds::empty());
        }
        if digit_index == 0 {
            proof {
                assert(self@.take(0) =~= Seq::<u8>::empty());
                assert(self@.skip(0) =~= self@);
            }
            return (DigitsUnds::empty(), self);
        }
        // walk to the byte just past the requested digit
        let n = self.s.len();
        let mut taken: usize = 0;
        let mut index: usize = 0;
        while taken < digit_index
            invariant
                s0 == self.s@,
                n == s0.len(),
                self.wf(),
                0 < digit_index < self.digits,
                0 <= index <= n,
                taken == digits_of(s0.take(index as int)).len(),
                taken <= digit_index,
                index > 0 ==> (taken == digit_index ==> !is_sep(s0[index - 1])),
                taken < digit_index ==> index < n,
            decreases n - index,
        {
            proof {
                lemma_digits_of_take_one(s0, index as int);
                // more digits remain past this point
                lemma_digits_of_split(s0, index + 1);
                if digits_of(s0.take(index + 1)).len() < self.digits {
                    assert(index + 1 < n || digits_of(s0.skip(index + 1)).len() == 0);
                    if index + 1 == n {
                        assert(s0.skip(index + 1) =~= Seq::<u8>::empty());
                    }
                }
            }
            if self.s[index] != 0x5F {
                taken = taken + 1;
            }
            index = index + 1;
        }
        proof {
            lemma_digits_of_len(s0.take(index as int));
            assert(digit_index <= index);
        }
        let first_slice = vstd::slice::slice_subrange(self.s, 0, index);
        // skip separators to the next digit
        let mut start: usize = index;
        proof {
            lemma_digits_of_split(s0, index as int);
            assert(digits_of(s0.skip(index as int)).len() == self.digits - digit_index);
            assert(s0.skip(index as int).skip(0) =~= s0.skip(index as int));
        }
        while start < n && self.s[start] == 0x5F
            invariant
                s0 == self.s@,
                n == s0.len(),
                self.wf(),
                index <= start <= n,
                0 < digit_index < self.digits,
                digits_of(s0.skip(start as int)) == digits_of(s0.skip(index as int)),
                digits_of(s0.skip(index as int)).len() == self.digits - digit_index,
            decreases n - start,
        {
            proof {
                assert(s0.skip(start as int).skip(1) =~= s0.skip(start + 1));
            }
            start = start + 1;
        }
        proof {
            // some digit remains, so the scan stopped inside the run
            if start == n {
                assert(s0.skip(n as int) =~= Seq::<u8>::empty());
            }
        }
        proof {
            lemma_digits_of_len(s0.skip(start as int));
        }
        let second_slice = vstd::slice::slice_subrange(self.s, start, n);
        proof {
            assert(first_slice@ =~= s0.take(index as int));
            assert(second_slice@ =~= s0.skip(start as int));
            lemma_digits_of_split(s0, index as int);
            assert(digits_of(s0.take(index as int)) =~= self@.take(digit_index as int));
            assert(digits_of(s0.skip(start as int)) =~= self@.skip(digit_index as int));
            // terminal bytes of both halves are digits
            assert(!is_sep(s0[0]));
            assert(!is_sep(s0[n - 1]));
        }
        (
            DigitsUnds { s: first_slice, digits: digit_index, unds: index - digit_index },
            DigitsUnds {
                s: second_slice,
                digits: self.digits - digit_index,
                unds: (n - start) - (self.digits - digit_index),
            },
        )
    }

    /// The first digit and the run past it, when there is one.
    pub fn split_first(self) -> (r: Option<(u8, DigitsUnds<'a>)>)
        requires
            self.wf(),
        ensures
            self@.len() == 0 ==> r is None,
            self@.len() > 0 ==> (r matches Some((d, rest)) && rest.wf() && d == self@[0] && rest@
                == self@.skip(1)),
    {
        if self.digits == 0 {
            return None;
        }
        let (head, rest) = self.split(1);
        proof {
            assert(head@.len() == 1);
            assert(head@[0] == self@[0]);
        }
        let d = match head.split_at_first_byte() {
            Some(d) => d,
            None => {
                proof {
                    assert(false);
                }
                0
            },
        };
        Some((d, rest))
    }

    /// The first byte of a non-empty run's slice, which is its first digit.
    fn split_at_first_byte(self) -> (r: Option<u8>)
        requires
            self.wf(),
        ensures
            self@.len() == 0 ==> r is None,
            self@.len() > 0 ==> r == Some(self@[0]),
    {
        if self.s.len() == 0 {
            proof {
                if self@.len() > 0 {
                    assert(self.s@.len() > 0);
                }
            }
            return None;
        }
        proof {
            assert(!is_sep(self.s@[0]));
            assert(self@ == digits_of(self.s@));
            assert(digits_of(self.s@)[0] == self.s@[0]);
        }
        Some(self.s[0])
    }

    /// The run before its last digit, and that digit, when there is one.
    pub fn split_last(self) -> (r: Option<(DigitsUnds<'a>, u8)>)
        requires
            self.wf(),
        ensures
            self@.len() == 0 ==> r is None,
            self@.len() > 0 ==> (r matches Some((rest, d)) && rest.wf() && d == self@[self@.len()
                - 1] && rest@ == self@.take(self@.len() - 1)),
    {
        if self.digits == 0 {
            return None;
        }
        let (rest, tail) = self.split(self.digits - 1);
        proof {
            assert(tail@.len() == 1);
            assert(tail@[0] == self@[self@.len() - 1]);
        }
        let d = match tail.split_at_first_byte() {
            Some(d) => d,
            None => {
                proof {
                    assert(false);
                }
                0
            },
        };
        Some((rest, d))
    }

    /// How many zero digits lead the run, and the run past them.
    pub fn split_leading_zeros(self) -> (r: (usize, DigitsUnds<'a>))
        requires
            self.wf(),
        ensures
            r.1.wf(),
            r.0 <= self@.len(),
            r.1@ == self@.skip(r.0 as int),
            forall|k: int| 0 <= k < r.0 ==> self@[k] == 0x30u8,
            r.1@ == trim_front_zeros(self@),
            r.1@.len() > 0 ==> r.1@[0] != 0x30u8,
    {
        let mut zeros: usize = 0;
        let mut rem = self;
        proof {
            assert(self@.skip(0) =~= self@);
        }
        while rem.peek_zero()
            invariant
                rem.wf(),
                self@.len() <= usize::MAX,
                zeros <= self@.len(),
                rem@ == self@.skip(zeros as int),
                forall|k: int| 0 <= k < zeros ==> self@[k] == 0x30u8,
                trim_front_zeros(self@) == trim_front_zeros(rem@),
            decreases rem@.len(),
        {
            let (_, rest) = match rem.split_first() {
                Some(p) => p,
                None => {
                    proof {
                        assert(false);
                    }
                    (0, rem)
                },
            };
            proof {
                assert(self@.skip(zeros as int).skip(1) =~= self@.skip(zeros + 1));
            }
            zeros = zeros + 1;
            rem = rest;
        }
        (zeros, rem)
    }

    /// Whether the run starts with a zero digit.
    fn peek_zero(self) -> (r: bool)
        requires
            self.wf(),
        ensures
            r == (self@.len() > 0 && self@[0] == 0x30u8),
    {
        match self.split_at_first_byte() {
            Some(d) => d == 0x30,
            None => false,
        }
    }

    /// The run up to its trailing zero digits, and how many those are.
    pub fn split_trailing_zeros(self) -> (r: (DigitsUnds<'a>, usize))
        requires
            self.wf(),
        ensures
            r.0.wf(),
            r.1 <= self@.len(),
            r.0@ == self@.take(self@.len() - r.1),
            forall|k: int| self@.len() - r.1 <= k < self@.len() ==> self@[k] == 0x30u8,
            r.0@ == trim_back_zeros(self@),
            r.0@.len() > 0 ==> r.0@[r.0@.len() - 1] != 0x30u8,
    {
        let mut zeros: usize = 0;
        let mut rem = self;
        proof {
            assert(self@.take(self@.len() as int) =~= self@);
        }
        while rem.peek_last_zero()
            invariant
                rem.wf(),
                self@.len() <= usize::MAX,
                zeros <= self@.len(),
                rem@ == self@.take(self@.len() - zeros),
                forall|k: int| self@.len() - zeros <= k < self@.len() ==> self@[k] == 0x30u8,
                trim_back_zeros(self@) == trim_back_zeros(rem@),
            decreases rem@.len(),
        {
            let (rest, _) = match rem.split_last() {
                Some(p) => p,
                None => {
                    proof {
                        assert(false);
                    }
                    (rem, 0)
                },
            };
            proof {
                assert(rem@.take(rem@.len() - 1) =~= self@.take(self@.len() - zeros - 1));
                assert(rem@.drop_last() =~= rem@.take(rem@.len() - 1));
            }
            zeros = zeros + 1;
            rem = rest;
        }
        (rem, zeros)
    }

    /// Whether the run ends with a zero digit.
    fn peek_last_zero(self) -> (r: bool)
        requires
            self.wf(),
        ensures
            r == (self@.len() > 0 && self@[self@.len() - 1] == 0x30u8),
    {
        match self.split_last() {
            Some((_, d)) => d == 0x30,
            None => false,
        }
    }
}

/// A run of `n` zero digits.
pub open spec fn zero_run(n: nat) -> Seq<u8> {
    Seq::new(n, |i: int| 0x30u8)
}

/// Trimming the front passes over a leading zero run.
pub proof fn lemma_trim_front_concat_zeros(k: nat, q: Seq<u8>)
    ensures
        trim_front_zeros(zero_run(k) + q) == trim_front_zeros(q),
    decreases k,
{
    if k == 0 {
        assert(zero_run(0) + q =~= q);
    } else {
        lemma_trim_front_concat_zeros((k - 1) as nat, q);
        assert((zero_run(k) + q)[0] == 0x30u8);
        assert((zero_run(k) + q).skip(1) =~= zero_run((k - 1) as nat) + q);
    }
}

/// Trimming the back passes over a trailing zero run.
pub proof fn lemma_trim_back_concat_zeros(q: Seq<u8>, k: nat)
    ensures
        trim_back_zeros(q + zero_run(k)) == trim_back_zeros(q),
    decreases k,
{
    if k == 0 {
        assert(q + zero_run(0) =~= q);
    } else {
        lemma_trim_back_concat_zeros(q, (k - 1) as nat);
        let w = q + zero_run(k);
        assert(w[w.len() - 1] == 0x30u8);
        assert(w.drop_last() =~= q + zero_run((k - 1) as nat));
    }
}

/// A run that starts with a non-zero digit trims to itself at the front.
pub proof fn lemma_trim_front_noop(q: Seq<u8>)
    requires
        q.len() > 0 ==> q[0] != 0x30u8,
    ensures
        trim_front_zeros(q) == q,
{
}

/// A run that ends with a non-zero digit trims to itself at the back.
pub proof fn lemma_trim_back_noop(q: Seq<u8>)
    requires
        q.len() > 0 ==> q[q.len() - 1] != 0x30u8,
    ensures
        trim_back_zeros(q) == q,
{
}

/// A logical digit sequence built from zero padding, two digit runs, and
/// more zero padding, standing for an exponent-shifted run without
/// materializing the padding.
#[derive(Clone, Copy, Debug)]
pub struct DigitsExp<'a> {
    leading_zeros: usize,
    part1: DigitsUnds<'a>,
    part2: DigitsUnds<'a>,
    trailing_zeros: usize,
}

impl<'a> View for DigitsExp<'a> {
    type V = Seq<u8>;

    closed spec fn view(&self) -> Seq<u8> {
        zero_run(self.leading_zeros as nat) + self.part1@ + self.part2@ + zero_run(
            self.trailing_zeros as nat,
        )
    }
}

impl<'a> DigitsExp<'a> {
    /// The parts are sound runs and the logical length fits the machine.
    pub closed spec fn wf(self) -> bool {
        &&& self.part1.wf()
        &&& self.part2.wf()
        &&& self.leading_zeros + self.part1@.len() + self.part2@.len() + self.trailing_zeros
            <= usize::MAX
    }

    /// An empty logical run.
    pub fn empty() -> (r: DigitsExp<'a>)
        ensures
            r.wf(),
            r@ == Seq::<u8>::empty(),
    {
        let r = DigitsExp {
            leading_zeros: 0,
            part1: DigitsUnds::empty(),
            part2: DigitsUnds::empty(),
            trailing_zeros: 0,
        };
        proof {
            assert(r@ =~= Seq::<u8>::empty());
        }
        r
    }

    /// One digit run, its terminal zeros absorbed into the padding counts.
    fn new1(digits: DigitsUnds<'a>) -> (r: DigitsExp<'a>)
        requires
            digits.wf(),
        ensures
            r.wf(),
            r@ == digits@,
            r.part2@.len() == 0,
            r.part1@.len() > 0 ==> r.part1@[0] != 0x30u8 && r.part1@[r.part1@.len() - 1]
                != 0x30u8,
    {
        let (leading_zeros, rest0) = digits.split_leading_zeros();
        let (rest, trailing_zeros) = rest0.split_trailing_zeros();
        let r = DigitsExp { leading_zeros, part1: rest, part2: DigitsUnds::empty(), trailing_zeros };
        proof {
            assert(zero_run(leading_zeros as nat) =~= digits@.take(leading_zeros as int));
            assert(zero_run(trailing_zeros as nat) =~= rest0@.skip(rest0@.len() - trailing_zeros));
            assert(rest0@ =~= rest@ + zero_run(trailing_zeros as nat));
            assert(digits@ =~= digits@.take(leading_zeros as int) + rest0@);
            assert(r@ =~= digits@);
        }
        r
    }

    /// Two digit runs in sequence, the outer zeros absorbed into the
    /// padding counts; when the first run is all zeros the second takes its
    /// place.
    fn new2(digits1: DigitsUnds<'a>, digits2: DigitsUnds<'a>) -> (r: DigitsExp<'a>)
        requires
            digits1.wf(),
            digits2.wf(),
            digits1@.len() + digits2@.len() <= usize::MAX,
        ensures
            r.wf(),
            r@ == digits1@ + digits2@,
            r.part1@.len() == 0 ==> r.part2@.len() == 0,
            r.part1@.len() > 0 ==> r.part1@[0] != 0x30u8,
            r.part2@.len() > 0 ==> r.part2@[r.part2@.len() - 1] != 0x30u8,
            (r.part2@.len() == 0 && r.part1@.len() > 0) ==> r.part1@[r.part1@.len() - 1]
                != 0x30u8,
    {
        let (mut leading_zeros, mut d1) = digits1.split_leading_zeros();
        let ghost lz1 = leading_zeros;
        let mut d2 = digits2;
        if d1.is_empty() {
            let (more, new_d1) = digits2.split_leading_zeros();
            proof {
                // the whole first run was zeros
                assert(digits1@ =~= zero_run(lz1 as nat));
                assert(zero_run((lz1 + more) as nat) =~= zero_run(lz1 as nat) + zero_run(
                    more as nat,
                ));
            }
            leading_zeros = leading_zeros + more;
            d1 = new_d1;
            d2 = DigitsUnds::empty();
        }
        proof {
            assert(zero_run(leading_zeros as nat) + (d1@ + d2@) =~= digits1@ + digits2@);
        }
        let (d2f, mut trailing_zeros) = d2.split_trailing_zeros();
        let d2v = d2f;
        let mut d1v = d1;
        if d2f.is_empty() {
            let (new_d1, more) = d1.split_trailing_zeros();
            proof {
                assert(d2@ =~= zero_run(trailing_zeros as nat));
                assert(d1@ =~= new_d1@ + zero_run(more as nat));
                assert(new_d1@ + zero_run((trailing_zeros + more) as nat) =~= (new_d1@ + zero_run(
                    more as nat,
                )) + zero_run(trailing_zeros as nat));
            }
            trailing_zeros = trailing_zeros + more;
            d1v = new_d1;
        } else {
            proof {
                assert(d2@ =~= d2f@ + zero_run(trailing_zeros as nat));
            }
        }
        let r = DigitsExp { leading_zeros, part1: d1v, part2: d2v, trailing_zeros };
        proof {
            assert(d1v@ + d2v@ + zero_run(trailing_zeros as nat) =~= d1@ + d2@);
            assert(r@ =~= digits1@ + digits2@);
        }
        r
    }

    /// How many digits the logical run holds, padding included.
    pub fn n_digits(self) -> (r: usize)
        requires
            self.wf(),
        ensures
            r == self@.len(),
    {
        self.leading_zeros + self.part1.n_digits() + self.part2.n_digits() + self.trailing_zeros
    }

    /// Whether the logical run holds nothing.
    pub fn is_empty(self) -> (r: bool)
        requires
            self.wf(),
        ensures
            r == (self@.len() == 0),
    {
        self.n_digits() == 0
    }

    /// Fold a decimal exponent into integer and fraction digit runs: the
    /// digit stream shifted by `exp` places, handed back as the new integer
    /// and fraction runs, both normalized at their outer ends. `None` when a
    /// shifted length cannot fit the machine.
    #[verifier::rlimit(100)]
    pub fn new_int_frac(int_part: DigitsUnds<'a>, frac_part: DigitsUnds<'a>, exp: i32) -> (r:
        Option<(DigitsExp<'a>, DigitsExp<'a>)>)
        requires
            int_part.wf(),
            frac_part.wf(),
            int_part@.len() + frac_part@.len() + 0x80000000 <= usize::MAX,
        ensures
            r matches Some((ip, fp)) ==> {
                let shifted_int = if exp >= 0 {
                    if exp <= frac_part@.len() {
                        int_part@ + frac_part@.take(exp as int)
                    } else {
                        int_part@ + frac_part@ + zero_run((exp - frac_part@.len()) as nat)
                    }
                } else {
                    if -exp < int_part@.len() {
                        int_part@.take(int_part@.len() + exp)
                    } else {
                        Seq::<u8>::empty()
                    }
                };
                let shifted_frac = if exp >= 0 {
                    if exp <= frac_part@.len() {
                        frac_part@.skip(exp as int)
                    } else {
                        Seq::<u8>::empty()
                    }
                } else {
                    if -exp < int_part@.len() {
                        int_part@.skip(int_part@.len() + exp) + frac_part@
                    } else {
                        zero_run((-exp - int_part@.len()) as nat) + int_part@ + frac_part@
                    }
                };
                &&& ip.wf()
                &&& fp.wf()
                &&& ip@ == crate::from_str::trim_front_zeros(shifted_int)
                &&& fp@ == crate::from_str::trim_back_zeros(shifted_frac)
            },
            r is Some,
    {
        let ghost iv = int_part@;
        let ghost fv = frac_part@;
        let (mut int_e, mut frac_e): (DigitsExp<'a>, DigitsExp<'a>);
        if exp == 0 {
            int_e = DigitsExp::new1(int_part);
            frac_e = DigitsExp::new1(frac_part);
            proof {
                assert(iv + fv.take(0) =~= iv);
                assert(fv.skip(0) =~= fv);
            }
        } else if exp < 0 {
            let abs_exp = (-(exp as i64)) as usize;
            proof {
                assert(abs_exp == -(exp as int));
            }
            if abs_exp < int_part.n_digits() {
                let (head, tail) = int_part.split(int_part.n_digits() - abs_exp);
                int_e = DigitsExp::new1(head);
                frac_e = DigitsExp::new2(tail, frac_part);
            } else {
                let mut f = DigitsExp::new2(int_part, frac_part);
                let ghost pre = f@;
                let ghost flz0 = f.leading_zeros;
                proof {
                    assert(f@.len() == f.leading_zeros + f.part1@.len() + f.part2@.len()
                        + f.trailing_zeros);
                    assert(f@.len() == iv.len() + fv.len());
                    assert(abs_exp <= 0x80000000);
                }
                f.leading_zeros = f.leading_zeros + (abs_exp - int_part.n_digits());
                int_e = DigitsExp::empty();
                frac_e = f;
                proof {
                    assert(zero_run(f.leading_zeros as nat) =~= zero_run(
                        (abs_exp - iv.len()) as nat,
                    ) + zero_run(flz0 as nat));
                    assert(frac_e@ =~= zero_run((abs_exp - iv.len()) as nat) + pre);
                    assert(frac_e@ =~= zero_run((abs_exp - iv.len()) as nat) + iv + fv);
                }
            }
        } else {
            let abs_exp = exp as usize;
            if abs_exp <= frac_part.n_digits() {
                let (head, tail) = frac_part.split(abs_exp);
                int_e = DigitsExp::new2(int_part, head);
                frac_e = DigitsExp::new1(tail);
            } else {
                let mut i = DigitsExp::new2(int_part, frac_part);
                let ghost pre = i@;
                let ghost ftz0 = i.trailing_zeros;
                proof {
                    assert(i@.len() == i.leading_zeros + i.part1@.len() + i.part2@.len()
                        + i.trailing_zeros);
                    assert(i@.len() == iv.len() + fv.len());
                    assert(abs_exp <= 0x80000000);
                }
                i.trailing_zeros = i.trailing_zeros + (abs_exp - frac_part.n_digits());
                int_e = i;
                frac_e = DigitsExp::empty();
                proof {
                    assert(zero_run(i.trailing_zeros as nat) =~= zero_run(ftz0 as nat) + zero_run(
                        (abs_exp - fv.len()) as nat,
                    ));
                    assert(int_e@ =~= pre + zero_run((abs_exp - fv.len()) as nat));
                    assert(int_e@ =~= iv + fv + zero_run((abs_exp - fv.len()) as nat));
                }
            }
        }
        // normalize the outer ends: the integer run loses leading zeros, the
        // fraction run trailing ones
        let ghost int_before = int_e@;
        let ghost frac_before = frac_e@;
        proof {
            lemma_trim_front_concat_zeros(int_e.leading_zeros as nat, int_e.part1@ + int_e.part2@
                + zero_run(int_e.trailing_zeros as nat));
            assert(int_e@ =~= zero_run(int_e.leading_zeros as nat) + (int_e.part1@ + int_e.part2@
                + zero_run(int_e.trailing_zeros as nat)));
        }
        int_e.leading_zeros = 0;
        if int_e.part1.is_empty() && int_e.part2.is_empty() {
            proof {
                lemma_trim_front_all_zeros(int_e.trailing_zeros as nat);
                assert(int_e.part1@ + int_e.part2@ + zero_run(int_e.trailing_zeros as nat)
                    =~= zero_run(int_e.trailing_zeros as nat));
            }
            int_e.trailing_zeros = 0;
            proof {
                assert(int_e@ =~= Seq::<u8>::empty());
            }
        } else {
            proof {
                assert(int_e@ =~= int_e.part1@ + int_e.part2@ + zero_run(
                    int_e.trailing_zeros as nat,
                ));
                lemma_trim_front_noop(int_e.part1@ + int_e.part2@ + zero_run(
                    int_e.trailing_zeros as nat,
                ));
            }
        }
        proof {
            lemma_trim_back_concat_zeros(zero_run(frac_e.leading_zeros as nat) + frac_e.part1@
                + frac_e.part2@, frac_e.trailing_zeros as nat);
            assert(frac_e@ =~= (zero_run(frac_e.leading_zeros as nat) + frac_e.part1@
                + frac_e.part2@) + zero_run(frac_e.trailing_zeros as nat));
        }
        frac_e.trailing_zeros = 0;
        if frac_e.part2.is_empty() && frac_e.part1.is_empty() {
            proof {
                lemma_trim_back_all_zeros(frac_e.leading_zeros as nat);
                assert(zero_run(frac_e.leading_zeros as nat) + frac_e.part1@ + frac_e.part2@
                    =~= zero_run(frac_e.leading_zeros as nat));
            }
            frac_e.leading_zeros = 0;
            proof {
                assert(frac_e@ =~= Seq::<u8>::empty());
            }
        } else {
            proof {
                let q = zero_run(frac_e.leading_zeros as nat) + frac_e.part1@ + frac_e.part2@;
                assert(frac_e@ =~= q + zero_run(0));
                assert(frac_e@ =~= q);
                lemma_trim_back_noop(q);
            }
        }
        proof {
            assert(int_e@ == crate::from_str::trim_front_zeros(int_before));
            assert(frac_e@ == crate::from_str::trim_back_zeros(frac_before));
        }
        Some((int_e, frac_e))
    }

    /// The logical runs before and from the digit at `digit_index`.
    pub fn split(self, digit_index: usize) -> (r: (DigitsExp<'a>, DigitsExp<'a>))
        requires
            self.wf(),
            digit_index <= self@.len(),
        ensures
            r.0.wf(),
            r.1.wf(),
            r.0@ == self@.take(digit_index as int),
            r.1@ == self@.skip(digit_index as int),
    {
        let mut digit_index = digit_index;
        if digit_index <= self.leading_zeros {
            let r = (
                DigitsExp {
                    leading_zeros: digit_index,
                    part1: DigitsUnds::empty(),
                    part2: DigitsUnds::empty(),
                    trailing_zeros: 0,
                },
                DigitsExp {
                    leading_zeros: self.leading_zeros - digit_index,
                    part1: self.part1,
                    part2: self.part2,
                    trailing_zeros: self.trailing_zeros,
                },
            );
            proof {
                assert(r.0@ =~= self@.take(digit_index as int));
                assert(r.1@ =~= self@.skip(digit_index as int));
            }
            return r;
        }
        let ghost di0 = digit_index as int;
        digit_index = digit_index - self.leading_zeros;
        if digit_index <= self.part1.n_digits() {
            let split1 = self.part1.split(digit_index);
            let r = (
                DigitsExp {
                    leading_zeros: self.leading_zeros,
                    part1: split1.0,
                    part2: DigitsUnds::empty(),
                    trailing_zeros: 0,
                },
                DigitsExp {
                    leading_zeros: 0,
                    part1: split1.1,
                    part2: self.part2,
                    trailing_zeros: self.trailing_zeros,
                },
            );
            proof {
                assert(r.0@ =~= self@.take(di0));
                assert(r.1@ =~= self@.skip(di0));
            }
            return r;
        }
        digit_index = digit_index - self.part1.n_digits();
        if digit_index <= self.part2.n_digits() {
            let split2 = self.part2.split(digit_index);
            let r = (
                DigitsExp {
                    leading_zeros: self.leading_zeros,
                    part1: self.part1,
                    part2: split2.0,
                    trailing_zeros: 0,
                },
                DigitsExp {
                    leading_zeros: 0,
                    part1: split2.1,
                    part2: DigitsUnds::empty(),
                    trailing_zeros: self.trailing_zeros,
                },
            );
            proof {
                assert(r.0@ =~= self@.take(di0));
                assert(r.1@ =~= self@.skip(di0));
            }
            return r;
        }
        digit_index = digit_index - self.part2.n_digits();
        let r = (
            DigitsExp {
                leading_zeros: self.leading_zeros,
                part1: self.part1,
                part2: self.part2,
                trailing_zeros: digit_index,
            },
            DigitsExp {
                leading_zeros: self.trailing_zeros - digit_index,
                part1: DigitsUnds::empty(),
                part2: DigitsUnds::empty(),
                trailing_zeros: 0,
            },
        );
        proof {
            assert(r.0@ =~= self@.take(di0));
            assert(r.1@ =~= self@.skip(di0));
        }
        return r;
    }

    /// The first logical digit and the run past it, when there is one; the
    /// rest is handed back without renormalizing its padding.
    pub fn split_first(self) -> (r: Option<(u8, DigitsExp<'a>)>)
        requires
            self.wf(),
        ensures
            self@.len() == 0 ==> r is None,
            self@.len() > 0 ==> (r matches Some((d, rest)) && rest.wf() && d == self@[0] && rest@
                == self@.skip(1)),
    {
        if self.leading_zeros > 0 {
            let r = DigitsExp { leading_zeros: self.leading_zeros - 1, ..self };
            proof {
                assert(r@ =~= self@.skip(1));
                assert(self@[0] == 0x30u8);
            }
            return Some((0x30, r));
        }
        match self.part1.split_first() {
            Some((first, rest)) => {
                let r = DigitsExp { part1: rest, ..self };
                proof {
                    assert(r@ =~= self@.skip(1));
                }
                return Some((first, r));
            },
            None => {},
        }
        match self.part2.split_first() {
            Some((first, rest)) => {
                let r = DigitsExp { part2: rest, ..self };
                proof {
                    assert(r@ =~= self@.skip(1));
                }
                return Some((first, r));
            },
            None => {},
        }
        if self.trailing_zeros > 0 {
            let r = DigitsExp { trailing_zeros: self.trailing_zeros - 1, ..self };
            proof {
                assert(r@ =~= self@.skip(1));
                assert(self@[0] == 0x30u8);
            }
            return Some((0x30, r));
        }
        proof {
            assert(self@ =~= Seq::<u8>::empty());
        }
        None
    }
}

/// An all-zero run trims to nothing at the front.
pub proof fn lemma_trim_front_all_zeros(k: nat)
    ensures
        trim_front_zeros(zero_run(k)) == Seq::<u8>::empty(),
    decreases k,
{
    if k > 0 {
        lemma_trim_front_all_zeros((k - 1) as nat);
        assert(zero_run(k).skip(1) =~= zero_run((k - 1) as nat));
    }
}

/// An all-zero run trims to nothing at the back.
pub proof fn lemma_trim_back_all_zeros(k: nat)
    ensures
        trim_back_zeros(zero_run(k)) == Seq::<u8>::empty(),
    decreases k,
{
    if k > 0 {
        lemma_trim_back_all_zeros((k - 1) as nat);
        assert(zero_run(k).drop_last() =~= zero_run((k - 1) as nat));
    }
}

} // verus!
