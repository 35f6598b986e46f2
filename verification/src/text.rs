//! Lines, words and decimal numbers in byte strings.

use vstd::prelude::*;

verus! {

/// Whether a byte is ASCII white space: blank, tab, line feed, vertical tab,
/// form feed or carriage return.
pub open spec fn is_space(b: u8) -> bool {
    b == 0x20 || (0x09 <= b && b <= 0x0d)
}

/// The first index at or after `i` that holds `c`; the length where none
/// does.
pub open spec fn find_byte(b: Seq<u8>, c: u8, i: int) -> int
    decreases b.len() - i,
{
    if i < 0 || i >= b.len() {
        b.len() as int
    } else if b[i] == c {
        i
    } else {
        find_byte(b, c, i + 1)
    }
}

/// The lines of `b` from index `i` on: the pieces between line feeds. A
/// final line feed is followed by one more, empty, line.
pub open spec fn lines_from(b: Seq<u8>, i: int) -> Seq<Seq<u8>>
    decreases b.len() - i,
{
    if i < 0 || i > b.len() {
        Seq::empty()
    } else {
        let e = find_byte(b, 0x0a, i);
        if e >= b.len() {
            seq![b.subrange(i, b.len() as int)]
        } else if e < i {
            Seq::empty()
        } else {
            seq![b.subrange(i, e)] + lines_from(b, e + 1)
        }
    }
}

/// The first index at or after `i` that holds no white space.
pub open spec fn skip_spaces(b: Seq<u8>, i: int) -> int
    decreases b.len() - i,
{
    if i < 0 || i >= b.len() {
        b.len() as int
    } else if !is_space(b[i]) {
        i
    } else {
        skip_spaces(b, i + 1)
    }
}

/// The first index at or after `i` that holds white space.
pub open spec fn word_end(b: Seq<u8>, i: int) -> int
    decreases b.len() - i,
{
    if i < 0 || i >= b.len() {
        b.len() as int
    } else if is_space(b[i]) {
        i
    } else {
        word_end(b, i + 1)
    }
}

/// The words of `b` from index `i` on: the runs of bytes between white
/// space.
pub open spec fn words_from(b: Seq<u8>, i: int) -> Seq<Seq<u8>>
    decreases b.len() - i,
{
    if i < 0 || i >= b.len() {
        Seq::empty()
    } else {
        let s = skip_spaces(b, i);
        if s >= b.len() || s < i {
            Seq::empty()
        } else {
            let e = word_end(b, s + 1);
            if e <= s || e > b.len() {
                Seq::empty()
            } else {
                seq![b.subrange(s, e)] + words_from(b, e)
            }
        }
    }
}

/// The number that the decimal digits `d[..k]` stand for; `None` where a
/// byte is no digit.
pub open spec fn digits_value(d: Seq<u8>, k: int) -> Option<nat>
    decreases k,
{
    if k <= 0 {
        Some(0)
    } else if !(0x30 <= d[k - 1] && d[k - 1] <= 0x39) {
        None
    } else {
        match digits_value(d, k - 1) {
            None => None,
            Some(v) => Some(10 * v + (d[k - 1] - 0x30) as nat),
        }
    }
}

/// The number that a word stands for: decimal digits, at least one, with
/// or without a `+` before them, not above `max`.
pub open spec fn decimal_value(w: Seq<u8>, max: nat) -> Option<nat> {
    let d = if w.len() > 0 && w[0] == 0x2b {
        w.subrange(1, w.len() as int)
    } else {
        w
    };
    if d.len() == 0 {
        None
    } else {
        match digits_value(d, d.len() as int) {
            None => None,
            Some(v) => if v <= max {
                Some(v)
            } else {
                None
            },
        }
    }
}

/// The decimal digits of `n`, without leading zeros; `0` for zero.
pub open spec fn decimal_digits(n: nat) -> Seq<u8>
    decreases n,
{
    if n < 10 {
        seq![(0x30 + n) as u8]
    } else {
        decimal_digits(n / 10).push((0x30 + n % 10) as u8)
    }
}

proof fn lemma_find_byte_bounds(b: Seq<u8>, c: u8, i: int)
    requires
        0 <= i <= b.len(),
    ensures
        i <= find_byte(b, c, i) <= b.len(),
    decreases b.len() - i,
{
    if i < b.len() && b[i] != c {
        lemma_find_byte_bounds(b, c, i + 1);
    }
}

proof fn lemma_skip_spaces_bounds(b: Seq<u8>, i: int)
    requires
        0 <= i <= b.len(),
    ensures
        i <= skip_spaces(b, i) <= b.len(),
    decreases b.len() - i,
{
    if i < b.len() && is_space(b[i]) {
        lemma_skip_spaces_bounds(b, i + 1);
    }
}

proof fn lemma_word_end_bounds(b: Seq<u8>, i: int)
    requires
        0 <= i <= b.len(),
    ensures
        i <= word_end(b, i) <= b.len(),
    decreases b.len() - i,
{
    if i < b.len() && !is_space(b[i]) {
        lemma_word_end_bounds(b, i + 1);
    }
}

/// The digits of a number stand for it.
pub proof fn lemma_decimal_roundtrip(n: nat, max: nat)
    requires
        n <= max,
    ensures
        decimal_value(decimal_digits(n), max) == Some(n),
{
    lemma_digits_roundtrip(n);
    let d = decimal_digits(n);
    assert(d[0] != 0x2b);
}

proof fn lemma_digits_roundtrip(n: nat)
    ensures
        decimal_digits(n).len() >= 1,
        digits_value(decimal_digits(n), decimal_digits(n).len() as int) == Some(n),
        forall|i: int|
            0 <= i < decimal_digits(n).len() ==> 0x30 <= #[trigger] decimal_digits(n)[i] <= 0x39,
    decreases n,
{
    let d = decimal_digits(n);
    if n < 10 {
        assert(digits_value(d, 0) == Some(0nat));
    } else {
        lemma_digits_roundtrip(n / 10);
        let head = decimal_digits(n / 10);
        assert(d == head.push((0x30 + n % 10) as u8));
        lemma_digits_prefix(d, head, head.len() as int);
    }
}

proof fn lemma_digits_prefix(a: Seq<u8>, b: Seq<u8>, k: int)
    requires
        0 <= k <= a.len(),
        k <= b.len(),
        forall|i: int| 0 <= i < k ==> a[i] == b[i],
    ensures
        digits_value(a, k) == digits_value(b, k),
    decreases k,
{
    if k > 0 {
        lemma_digits_prefix(a, b, k - 1);
    }
}

/// Whether two byte strings are equal.
pub fn bytes_eq(a: &[u8], b: &[u8]) -> (eq: bool)
    ensures
        eq == (a@ == b@),
{
    if a.len() != b.len() {
        return false;
    }
    let mut i: usize = 0;
    while i < a.len()
        invariant
            i <= a@.len(),
            a@.len() == b@.len(),
            forall|j: int| 0 <= j < i ==> a@[j] == b@[j],
        decreases a@.len() - i,
    {
        if a[i] != b[i] {
            return false;
        }
        i += 1;
    }
    assert(a@ =~= b@);
    true
}

fn space(b: u8) -> (r: bool)
    ensures
        r == is_space(b),
{
    b == 0x20 || (0x09 <= b && b <= 0x0d)
}

/// A copy of the bytes `from..to` of `b`.
pub fn copy_bytes(b: &[u8], from: usize, to: usize) -> (out: Vec<u8>)
    requires
        from <= to <= b@.len(),
    ensures
        out@ == b@.subrange(from as int, to as int),
{
    let mut out: Vec<u8> = Vec::new();
    let mut i = from;
    while i < to
        invariant
            from <= i <= to <= b@.len(),
            out@ == b@.subrange(from as int, i as int),
        decreases to - i,
    {
        out.push(b[i]);
        assert(out@ =~= b@.subrange(from as int, i + 1));
        i += 1;
    }
    out
}

/// The views of a list of byte strings.
pub open spec fn byte_views(v: Seq<Vec<u8>>) -> Seq<Seq<u8>> {
    Seq::new(v.len(), |i: int| v[i]@)
}

/// Splits `b` into its lines.
pub fn split_lines(b: &[u8]) -> (lines: Vec<Vec<u8>>)
    ensures
        byte_views(lines@) == lines_from(b@, 0),
{
    let mut lines: Vec<Vec<u8>> = Vec::new();
    let mut start: usize = 0;
    let mut i: usize = 0;
    assert(byte_views(lines@) + lines_from(b@, 0) =~= lines_from(b@, 0));
    while i < b.len()
        invariant
            start <= i <= b@.len(),
            find_byte(b@, 0x0a, start as int) == find_byte(b@, 0x0a, i as int),
            lines_from(b@, 0) == byte_views(lines@) + lines_from(b@, start as int),
        decreases b@.len() - i,
    {
        if b[i] == 0x0a {
            let line = copy_bytes(b, start, i);
            proof {
                let seen = byte_views(lines@);
                let rest = lines_from(b@, i + 1);
                assert(byte_views(lines@.push(line)) =~= seen + seq![line@]);
                assert((seen + seq![line@]) + rest =~= seen + (seq![line@] + rest));
            }
            lines.push(line);
            start = i + 1;
        }
        i += 1;
    }
    let last = copy_bytes(b, start, b.len());
    proof {
        assert(byte_views(lines@.push(last)) =~= byte_views(lines@) + seq![last@]);
    }
    lines.push(last);
    lines
}

/// Splits `b` into its words.
pub fn split_words(b: &[u8]) -> (words: Vec<Vec<u8>>)
    ensures
        byte_views(words@) == words_from(b@, 0),
{
    let mut words: Vec<Vec<u8>> = Vec::new();
    let mut i: usize = 0;
    assert(byte_views(words@) + words_from(b@, 0) =~= words_from(b@, 0));
    while i < b.len()
        invariant
            i <= b@.len(),
            words_from(b@, 0) == byte_views(words@) + words_from(b@, i as int),
        decreases b@.len() - i,
    {
        let mut s = i;
        while s < b.len() && space(b[s])
            invariant
                i <= s <= b@.len(),
                skip_spaces(b@, i as int) == skip_spaces(b@, s as int),
            decreases b@.len() - s,
        {
            s += 1;
        }
        if s >= b.len() {
            assert(byte_views(words@) + Seq::<Seq<u8>>::empty() =~= byte_views(words@));
            i = s;
        } else {
            let mut e = s + 1;
            while e < b.len() && !space(b[e])
                invariant
                    s < e <= b@.len(),
                    word_end(b@, s + 1) == word_end(b@, e as int),
                decreases b@.len() - e,
            {
                e += 1;
            }
            let word = copy_bytes(b, s, e);
            proof {
                let seen = byte_views(words@);
                let rest = words_from(b@, e as int);
                assert(byte_views(words@.push(word)) =~= seen + seq![word@]);
                assert((seen + seq![word@]) + rest =~= seen + (seq![word@] + rest));
            }
            words.push(word);
            i = e;
        }
    }
    assert(byte_views(words@) + Seq::<Seq<u8>>::empty() =~= byte_views(words@));
    words
}

/// Reads a decimal number that fits `usize`.
pub fn parse_decimal(w: &[u8]) -> (r: Option<usize>)
    ensures
        r == match decimal_value(w@, usize::MAX as nat) {
            Some(v) => Some(v as usize),
            None => None,
        },
{
    let start: usize = if w.len() > 0 && w[0] == 0x2b {
        1
    } else {
        0
    };
    let ghost d = w@.subrange(start as int, w@.len() as int);
    if start == 0 {
        assert(d =~= w@);
    }
    if w.len() == start {
        return None;
    }
    let mut v: usize = 0;
    let mut i: usize = start;
    while i < w.len()
        invariant
            start <= i <= w@.len(),
            d == w@.subrange(start as int, w@.len() as int),
            d == (if w@.len() > 0 && w@[0] == 0x2b {
                w@.subrange(1, w@.len() as int)
            } else {
                w@
            }),
            d.len() > 0,
            digits_value(d, i - start) == Some(v as nat),
        decreases w@.len() - i,
    {
        let c = w[i];
        assert(d[i - start] == c);
        if c < 0x30 || c > 0x39 {
            proof {
                assert(digits_value(d, i - start + 1).is_none());
                lemma_digits_none(d, i - start + 1, d.len() as int);
            }
            return None;
        }
        let digit = (c - 0x30) as usize;
        if v > (usize::MAX - digit) / 10 {
            proof {
                assert(digits_value(d, i - start + 1) == Some((10 * v + digit) as nat));
                assert(10 * v + digit > usize::MAX);
                lemma_digits_grow(d, i - start + 1, d.len() as int);
            }
            return None;
        }
        v = 10 * v + digit;
        i += 1;
    }
    assert(i - start == d.len());
    Some(v)
}

proof fn lemma_digits_none(d: Seq<u8>, k: int, n: int)
    requires
        0 < k <= n <= d.len(),
        digits_value(d, k).is_none(),
    ensures
        digits_value(d, n).is_none(),
    decreases n - k,
{
    if k < n {
        lemma_digits_none(d, k, n - 1);
    }
}

proof fn lemma_digits_grow(d: Seq<u8>, k: int, n: int)
    requires
        0 < k <= n <= d.len(),
    ensures
        digits_value(d, n) matches Some(v) ==> digits_value(d, k) matches Some(u) && u <= v,
    decreases n - k,
{
    if k < n {
        lemma_digits_grow(d, k, n - 1);
    }
}

/// Appends the decimal digits of `n`.
pub fn write_decimal(out: &mut Vec<u8>, n: usize)
    ensures
        final(out)@ == old(out)@ + decimal_digits(n as nat),
    decreases n,
{
    if n < 10 {
        out.push(0x30 + n as u8);
        assert(out@ =~= old(out)@ + decimal_digits(n as nat));
    } else {
        write_decimal(out, n / 10);
        out.push(0x30 + (n % 10) as u8);
        assert(out@ =~= old(out)@ + decimal_digits(n as nat));
    }
}

} // verus!
