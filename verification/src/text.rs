//! Byte strings: cutting them at a separator, comparing them, and reading
//! and writing decimal numbers.

use vstd::prelude::*;
use vstd::slice::slice_subrange;

verus! {

/// The number of bytes before the first `sep` in `s`, or the length of `s`
/// if it holds none.
pub open spec fn first_sep(s: Seq<u8>, sep: u8) -> nat
    decreases s.len(),
{
    if s.len() == 0 || s[0] == sep {
        0
    } else {
        1 + first_sep(s.drop_first(), sep)
    }
}

/// What stands between the separators of `s`, in order. There is one piece
/// more than there are separators, so there is always at least one, and a
/// leading, trailing or doubled separator shows as an empty piece.
pub open spec fn pieces(s: Seq<u8>, sep: u8) -> Seq<Seq<u8>>
    decreases s.len(),
{
    let n = first_sep(s, sep);
    if n >= s.len() {
        seq![s]
    } else {
        seq![s.take(n as int)].add(pieces(s.skip(n as int + 1), sep))
    }
}

/// The byte strings that a sequence of vectors holds.
pub open spec fn views(v: Seq<Vec<u8>>) -> Seq<Seq<u8>> {
    Seq::new(v.len(), |i: int| v[i]@)
}

/// `first_sep` is the position of the first separator: the bytes before `n`
/// are no separators, and `s` ends at `n` or has a separator there.
pub proof fn lemma_first_sep(s: Seq<u8>, sep: u8, n: int)
    requires
        0 <= n <= s.len(),
        forall|j: int| 0 <= j < n ==> s[j] != sep,
        n == s.len() || s[n] == sep,
    ensures
        first_sep(s, sep) == n,
    decreases s.len(),
{
    if n > 0 {
        let t = s.drop_first();
        assert forall|j: int| 0 <= j < n - 1 implies t[j] != sep by {
            assert(t[j] == s[j + 1]);
        }
        lemma_first_sep(t, sep, n - 1);
    }
}

/// A byte string has at least one piece.
pub proof fn lemma_pieces_nonempty(s: Seq<u8>, sep: u8)
    ensures
        pieces(s, sep).len() >= 1,
    decreases s.len(),
{
    let n = first_sep(s, sep);
    if n < s.len() {
        lemma_pieces_nonempty(s.skip(n as int + 1), sep);
    }
}

/// A byte string without a separator is its own single piece.
pub proof fn lemma_pieces_single(s: Seq<u8>, sep: u8)
    requires
        forall|j: int| 0 <= j < s.len() ==> s[j] != sep,
    ensures
        pieces(s, sep) == seq![s],
{
    lemma_first_sep(s, sep, s.len() as int);
}

/// Joining `a`, which holds no separator, a separator and `b` gives `a`
/// followed by the pieces of `b`.
pub proof fn lemma_pieces_join(a: Seq<u8>, sep: u8, b: Seq<u8>)
    requires
        forall|j: int| 0 <= j < a.len() ==> a[j] != sep,
    ensures
        pieces(a + seq![sep] + b, sep) == seq![a] + pieces(b, sep),
{
    let s = a + seq![sep] + b;
    lemma_first_sep(s, sep, a.len() as int);
    assert(s.take(a.len() as int) =~= a);
    assert(s.skip(a.len() as int + 1) =~= b);
}

/// Whether two byte strings are equal.
pub fn bytes_eq(a: &[u8], b: &[u8]) -> (same: bool)
    ensures
        same == (a@ == b@),
{
    if a.len() != b.len() {
        return false;
    }
    let mut i: usize = 0;
    while i < a.len()
        invariant
            i <= a.len(),
            a.len() == b.len(),
            forall|j: int| 0 <= j < i ==> a@[j] == b@[j],
        decreases a.len() - i,
    {
        if a[i] != b[i] {
            return false;
        }
        i += 1;
    }
    assert(a@ =~= b@);
    true
}

/// A walk over the pieces of a byte string, from the first to the last.
pub struct Split<'a> {
    pos: usize,
    done: bool,
    sep: u8,
    buf: &'a [u8],
}

impl<'a> Split<'a> {
    /// Starts a walk over the pieces that `sep` cuts `buf` into.
    pub fn new(buf: &'a [u8], sep: u8) -> (split: Self)
        ensures
            split.remaining() == pieces(buf@, sep),
    {
        assert(buf@.skip(0) =~= buf@);
        Split { pos: 0, done: false, sep, buf }
    }

    /// The pieces that the walk has yet to hand out.
    pub closed spec fn remaining(&self) -> Seq<Seq<u8>> {
        if self.done || self.pos > self.buf@.len() {
            Seq::empty()
        } else {
            pieces(self.buf@.skip(self.pos as int), self.sep)
        }
    }

    /// The next piece, or `None` when every piece was handed out.
    pub fn next(&mut self) -> (tok: Option<&'a [u8]>)
        ensures
            match tok {
                Some(t) => old(self).remaining().len() > 0 && t@ == old(self).remaining()[0]
                    && final(self).remaining() == old(self).remaining().drop_first(),
                None => old(self).remaining().len() == 0 && final(self).remaining().len() == 0,
            },
    {
        if self.done || self.pos > self.buf.len() {
            return None;
        }
        let start: usize = self.pos;
        let mut end: usize = start;
        while end < self.buf.len() && self.buf[end] != self.sep
            invariant
                start <= end <= self.buf@.len(),
                forall|j: int| start <= j < end ==> self.buf@[j] != self.sep,
            decreases self.buf@.len() - end,
        {
            end += 1;
        }
        let tok = slice_subrange(self.buf, start, end);
        proof {
            let s = self.buf@.skip(start as int);
            lemma_first_sep(s, self.sep, end - start);
            assert(tok@ =~= s.take(end - start));
            if end < self.buf@.len() {
                assert(s.skip(end - start + 1) =~= self.buf@.skip(end + 1));
                assert(pieces(s, self.sep) =~= seq![s.take(end - start)].add(
                    pieces(self.buf@.skip(end + 1), self.sep),
                ));
                assert(pieces(s, self.sep).drop_first() =~= pieces(
                    self.buf@.skip(end + 1),
                    self.sep,
                ));
            } else {
                assert(s.take(end - start) =~= s);
                assert(pieces(s, self.sep) =~= seq![s]);
                assert(pieces(s, self.sep).drop_first() =~= Seq::<Seq<u8>>::empty());
            }
        }
        if end < self.buf.len() {
            self.pos = end + 1;
        } else {
            self.done = true;
        }
        Some(tok)
    }

    /// Whether a piece is left.
    pub fn has_next(&self) -> (more: bool)
        ensures
            more == (self.remaining().len() > 0),
    {
        proof {
            if !self.done && self.pos <= self.buf@.len() {
                lemma_pieces_nonempty(self.buf@.skip(self.pos as int), self.sep);
            }
        }
        !self.done && self.pos <= self.buf.len()
    }
}

/// The space that separates the fields of an argument line.
pub const SPACE: u8 = 32;

/// The horizontal tab.
pub const TAB: u8 = 9;

/// The carriage return.
pub const CR: u8 = 13;

/// The line feed.
pub const LF: u8 = 10;

/// The plus sign that may stand before a decimal number.
pub const PLUS: u8 = 43;

/// The digit `0`; the other digits follow it.
pub const ZERO: u8 = 48;

/// The pieces of `p` that are not empty, in order.
pub open spec fn drop_empty(p: Seq<Seq<u8>>) -> Seq<Seq<u8>>
    decreases p.len(),
{
    if p.len() == 0 {
        Seq::empty()
    } else if p[0].len() == 0 {
        drop_empty(p.drop_first())
    } else {
        seq![p[0]].add(drop_empty(p.drop_first()))
    }
}

/// The fields of an argument line: it is cut at every space, and what is
/// empty is left out, so that a run of spaces separates as one does.
pub open spec fn fields(line: Seq<u8>) -> Seq<Seq<u8>> {
    drop_empty(pieces(line, SPACE))
}

/// Whether `b` is a decimal digit.
pub open spec fn is_digit(b: u8) -> bool {
    ZERO <= b <= ZERO + 9
}

/// The value of the digit `b`.
pub open spec fn digit_value(b: u8) -> nat {
    if is_digit(b) {
        (b - ZERO) as nat
    } else {
        0
    }
}

/// Whether `d` holds digits only.
pub open spec fn all_digits(d: Seq<u8>) -> bool {
    forall|i: int| 0 <= i < d.len() ==> is_digit(#[trigger] d[i])
}

/// The number that the digits `d` write, the most significant first.
pub open spec fn digits_value(d: Seq<u8>) -> nat
    decreases d.len(),
{
    if d.len() == 0 {
        0
    } else {
        digits_value(d.drop_last()) * 10 + digit_value(d.last())
    }
}

/// The number that `text` writes in decimal: an optional `+`, then one
/// digit or more and nothing else. `None` for every other text.
pub open spec fn decimal(text: Seq<u8>) -> Option<nat> {
    let d = if text.len() > 0 && text[0] == PLUS {
        text.drop_first()
    } else {
        text
    };
    if d.len() > 0 && all_digits(d) {
        Some(digits_value(d))
    } else {
        None
    }
}

/// The decimal digits of `n`, without a sign and without leading zeros.
pub open spec fn decimal_digits(n: nat) -> Seq<u8>
    decreases n,
{
    if n < 10 {
        seq![(ZERO + n) as u8]
    } else {
        decimal_digits(n / 10).push((ZERO + n % 10) as u8)
    }
}

/// More digits never write a smaller number.
pub proof fn lemma_digits_value_prefix(d: Seq<u8>, k: int)
    requires
        0 <= k <= d.len(),
    ensures
        digits_value(d.take(k)) <= digits_value(d),
    decreases d.len() - k,
{
    if k < d.len() {
        lemma_digits_value_prefix(d, k + 1);
        assert(d.take(k + 1).drop_last() =~= d.take(k));
    } else {
        assert(d.take(k) =~= d);
    }
}

/// The digits of a number are digits, there is at least one, and they
/// write that number.
pub proof fn lemma_decimal_digits(n: nat)
    ensures
        decimal_digits(n).len() >= 1,
        all_digits(decimal_digits(n)),
        digits_value(decimal_digits(n)) == n,
        decimal(decimal_digits(n)) == Some(n),
    decreases n,
{
    let d = decimal_digits(n);
    if n < 10 {
        assert(d.drop_last() =~= Seq::<u8>::empty());
        assert(digits_value(d.drop_last()) == 0);
    } else {
        lemma_decimal_digits(n / 10);
        let p = decimal_digits(n / 10);
        assert(d.drop_last() =~= p);
        assert(d.last() == (ZERO + n % 10) as u8);
        assert forall|i: int| 0 <= i < d.len() implies is_digit(#[trigger] d[i]) by {
            if i < p.len() {
                assert(d[i] == p[i]);
            }
        }
    }
    assert(d[0] != PLUS);
}

/// The fields of a line, each as a vector of its own.
pub fn split_fields(line: &[u8]) -> (f: Vec<Vec<u8>>)
    ensures
        views(f@) == fields(line@),
{
    let mut split = Split::new(line, SPACE);
    let mut f: Vec<Vec<u8>> = Vec::new();
    assert(views(f@) =~= Seq::<Seq<u8>>::empty());
    loop
        invariant
            views(f@) + drop_empty(split.remaining()) == fields(line@),
        ensures
            views(f@) == fields(line@),
        decreases split.remaining().len(),
    {
        let ghost before = views(f@);
        let ghost rest = split.remaining();
        match split.next() {
            Some(t) => {
                if t.len() > 0 {
                    let v = vstd::slice::slice_to_vec(t);
                    f.push(v);
                    assert(views(f@) =~= before.push(t@));
                    assert(before.push(t@) + drop_empty(rest.drop_first()) =~= before
                        + drop_empty(rest));
                }
            },
            None => {
                assert(before + drop_empty(rest) =~= before);
                break ;
            },
        }
    }
    f
}

/// Reads a decimal number: `Some` of its value where `text` writes one that
/// a `usize` can hold, `None` for any other text.
pub fn parse_decimal(text: &[u8]) -> (value: Option<usize>)
    ensures
        value == match decimal(text@) {
            Some(v) => if v <= usize::MAX {
                Some(v as usize)
            } else {
                None
            },
            None => None,
        },
{
    let start: usize = if text.len() > 0 && text[0] == PLUS {
        1
    } else {
        0
    };
    let ghost d = text@.skip(start as int);
    assert(d =~= if text@.len() > 0 && text@[0] == PLUS {
        text@.drop_first()
    } else {
        text@
    });
    if start >= text.len() {
        return None;
    }
    let mut i: usize = start;
    let mut acc: usize = 0;
    assert(d.take(0) =~= Seq::<u8>::empty());
    while i < text.len()
        invariant
            start <= i <= text@.len(),
            d == text@.skip(start as int),
            decimal(text@) == if d.len() > 0 && all_digits(d) {
                Some(digits_value(d))
            } else {
                None
            },
            all_digits(d.take(i - start)),
            acc == digits_value(d.take(i - start)),
        decreases text@.len() - i,
    {
        let b: u8 = text[i];
        assert(d[i - start] == b);
        if b < ZERO || b > ZERO + 9 {
            assert(!is_digit(d[i - start]));
            return None;
        }
        let ghost next = d.take(i - start + 1);
        proof {
            assert(next.drop_last() =~= d.take(i - start));
            assert(next.last() == b);
            assert forall|j: int| 0 <= j < next.len() implies is_digit(#[trigger] next[j]) by {
                if j < i - start {
                    assert(next[j] == d.take(i - start)[j]);
                }
            }
            lemma_digits_value_prefix(d, i - start + 1);
            assert(digits_value(next) == acc * 10 + (b - ZERO));
        }
        let digit: usize = (b - ZERO) as usize;
        let tens = match acc.checked_mul(10) {
            Some(t) => t,
            None => {
                return None;
            },
        };
        acc = match tens.checked_add(digit) {
            Some(t) => t,
            None => {
                return None;
            },
        };
        i += 1;
    }
    assert(d.take(i - start) =~= d);
    Some(acc)
}

/// Writes `n` in decimal.
pub fn format_decimal(n: u64) -> (text: Vec<u8>)
    ensures
        text@ == decimal_digits(n as nat),
{
    let mut low_first: Vec<u8> = Vec::new();
    let mut m: u64 = n;
    loop
        invariant_except_break
            decimal_digits(n as nat) == decimal_digits(m as nat) + Seq::new(
                low_first@.len(),
                |j: int| low_first@[low_first@.len() - 1 - j],
            ),
        ensures
            low_first@.len() >= 1,
            decimal_digits(n as nat) == Seq::new(
                low_first@.len(),
                |j: int| low_first@[low_first@.len() - 1 - j],
            ),
        decreases m,
    {
        let ghost before = low_first@;
        let ghost high = decimal_digits(m as nat);
        let digit: u8 = ZERO + (m % 10) as u8;
        low_first.push(digit);
        let ghost flipped = Seq::new(
            low_first@.len(),
            |j: int| low_first@[low_first@.len() - 1 - j],
        );
        let ghost flipped_before = Seq::new(before.len(), |j: int| before[before.len() - 1 - j]);
        assert(flipped =~= seq![digit] + flipped_before);
        if m < 10 {
            assert(high =~= seq![digit]);
            break ;
        }
        assert(high =~= decimal_digits((m / 10) as nat).push(digit));
        assert(decimal_digits((m / 10) as nat).push(digit) + flipped_before =~= decimal_digits(
            (m / 10) as nat,
        ) + flipped);
        m = m / 10;
    }
    let mut text: Vec<u8> = Vec::new();
    let mut k: usize = low_first.len();
    while k > 0
        invariant
            k <= low_first@.len(),
            text@.len() == low_first@.len() - k,
            forall|j: int| 0 <= j < text@.len() ==> text@[j] == low_first@[low_first@.len() - 1 - j],
        decreases k,
    {
        k -= 1;
        text.push(low_first[k]);
    }
    assert(text@ =~= Seq::new(low_first@.len(), |j: int| low_first@[low_first@.len() - 1 - j]));
    text
}

/// A text that holds no space and is not empty is its own single field.
pub proof fn lemma_fields_single(a: Seq<u8>)
    requires
        a.len() > 0,
        forall|j: int| 0 <= j < a.len() ==> a[j] != SPACE,
    ensures
        fields(a) == seq![a],
{
    lemma_pieces_single(a, SPACE);
    let p = seq![a];
    assert(p.drop_first() =~= Seq::<Seq<u8>>::empty());
    assert(drop_empty(p) =~= seq![a].add(drop_empty(p.drop_first())));
}

/// A text that holds no space and is not empty, then a space, then a line:
/// the fields are that text and then the fields of the line.
pub proof fn lemma_fields_join(a: Seq<u8>, b: Seq<u8>)
    requires
        a.len() > 0,
        forall|j: int| 0 <= j < a.len() ==> a[j] != SPACE,
    ensures
        fields(a + seq![SPACE] + b) == seq![a] + fields(b),
{
    lemma_pieces_join(a, SPACE, b);
    let p = seq![a] + pieces(b, SPACE);
    assert(p[0] == a);
    assert(p.drop_first() =~= pieces(b, SPACE));
}

} // verus!
