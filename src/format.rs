//! The container's wire format: its byte-level pieces as spec functions, and the
//! small executable codecs (binary count digits, decimal lengths, lines) that
//! the encoder and decoder share.

use vstd::prelude::*;

verus! {

/// The byte that ends every text line of the container.
pub const NEWLINE: u8 = 10;

/// The most passwords a container can carry: the count is stored in four bits.
pub const MAX_PASSWORDS: usize = 16;

/// The 8-byte tag that opens every container: `BadLock` followed by a zero byte.
pub open spec fn magic() -> Seq<u8> {
    seq![66u8, 97u8, 100u8, 76u8, 111u8, 99u8, 107u8, 0u8]
}

/// The ASCII digit `0` or `1` for a bit.
pub open spec fn bit_digit(b: nat) -> u8 {
    if b == 0 { 48u8 } else { 49u8 }
}

/// `k` (below 16) as four ASCII binary digits, most significant first.
pub open spec fn count_bits(k: nat) -> Seq<u8> {
    seq![bit_digit(k / 8), bit_digit((k / 4) % 2), bit_digit((k / 2) % 2), bit_digit(k % 2)]
}

/// Whether `s` is exactly four ASCII binary digits.
pub open spec fn is_bits(s: Seq<u8>) -> bool {
    s.len() == 4 && forall|i: int| 0 <= i < 4 ==> #[trigger] s[i] == 48u8 || s[i] == 49u8
}

/// The value of four ASCII binary digits.
pub open spec fn bits_value(s: Seq<u8>) -> nat {
    ((s[0] - 48) * 8 + (s[1] - 48) * 4 + (s[2] - 48) * 2 + (s[3] - 48)) as nat
}

/// The first line of a container holding `n` passwords.
pub open spec fn header_line(n: nat) -> Seq<u8> {
    magic() + count_bits((n - 1) as nat) + seq![NEWLINE]
}

/// Whether `b` is an ASCII decimal digit.
pub open spec fn is_digit(b: u8) -> bool {
    48 <= b <= 57
}

/// Whether `s` is a non-empty run of ASCII decimal digits.
pub open spec fn is_digits(s: Seq<u8>) -> bool {
    s.len() > 0 && forall|i: int| 0 <= i < s.len() ==> is_digit(#[trigger] s[i])
}

/// The value of a run of ASCII decimal digits.
pub open spec fn digits_value(s: Seq<u8>) -> nat
    decreases s.len(),
{
    if s.len() == 0 {
        0
    } else {
        digits_value(s.drop_last()) * 10 + (s.last() - 48) as nat
    }
}

/// `n` written in ASCII decimal, without leading zeros.
pub open spec fn decimal(n: nat) -> Seq<u8>
    decreases n,
{
    if n < 10 {
        seq![(48 + n) as u8]
    } else {
        decimal(n / 10).push((48 + n % 10) as u8)
    }
}

/// Whether `s` holds no newline byte.
pub open spec fn no_newline(s: Seq<u8>) -> bool {
    forall|i: int| 0 <= i < s.len() ==> #[trigger] s[i] != NEWLINE
}

/// Where the line that starts at `pos` ends: the first newline at or after
/// `pos`, or the end of `b`.
pub open spec fn line_end(b: Seq<u8>, pos: int) -> int
    decreases b.len() - pos,
{
    if pos >= b.len() {
        b.len() as int
    } else if b[pos] == NEWLINE {
        pos
    } else {
        line_end(b, pos + 1)
    }
}

/// The line that starts at `pos` (without its newline) and where the next one
/// starts; `None` at the end of the input.
pub open spec fn next_line(b: Seq<u8>, pos: int) -> Option<(Seq<u8>, int)> {
    if pos >= b.len() {
        None
    } else {
        let e = line_end(b, pos);
        Some((b.subrange(pos, e), if e < b.len() { e + 1 } else { e }))
    }
}

/// The decimal line that gives a blob's length.
pub open spec fn length_line(blob: Seq<u8>) -> Seq<u8> {
    decimal(blob.len()) + seq![NEWLINE]
}

/// The length line of each blob, in order.
pub open spec fn line_pieces(blobs: Seq<Seq<u8>>) -> Seq<Seq<u8>> {
    blobs.map_values(|b: Seq<u8>| length_line(b))
}

/// One decimal line per blob, each giving that blob's length.
pub open spec fn length_lines(blobs: Seq<Seq<u8>>) -> Seq<u8> {
    concat(line_pieces(blobs))
}

/// The blobs one after the other, with no separator.
pub open spec fn concat(blobs: Seq<Seq<u8>>) -> Seq<u8>
    decreases blobs.len(),
{
    if blobs.len() == 0 {
        seq![]
    } else {
        concat(blobs.drop_last()) + blobs.last()
    }
}

/// Appending a digit multiplies the value by ten and adds the digit.
pub proof fn lemma_digits_value_push(s: Seq<u8>, d: u8)
    ensures
        digits_value(s.push(d)) == digits_value(s) * 10 + (d - 48) as nat,
{
    assert(s.push(d).drop_last() =~= s);
}

/// Decimal text reads back to the number it was written from.
pub proof fn lemma_decimal_digits(n: nat)
    ensures
        is_digits(decimal(n)),
        digits_value(decimal(n)) == n,
        no_newline(decimal(n)),
    decreases n,
{
    if n < 10 {
        assert(decimal(n).drop_last() =~= Seq::<u8>::empty());
        assert(digits_value(Seq::<u8>::empty()) == 0);
    } else {
        lemma_decimal_digits(n / 10);
        lemma_digits_value_push(decimal(n / 10), (48 + n % 10) as u8);
        assert(n == (n / 10) * 10 + n % 10) by (nonlinear_arith);
    }
}

/// A longer prefix of a digit run is worth at least as much.
pub proof fn lemma_digits_value_prefix(s: Seq<u8>, j: int, k: int)
    requires
        0 <= j <= k <= s.len(),
        forall|i: int| 0 <= i < s.len() ==> is_digit(#[trigger] s[i]),
    ensures
        digits_value(s.subrange(0, j)) <= digits_value(s.subrange(0, k)),
    decreases k - j,
{
    if j < k {
        lemma_digits_value_prefix(s, j, k - 1);
        assert(s.subrange(0, k).drop_last() =~= s.subrange(0, k - 1));
    }
}

/// Appends `src` to `out`.
pub fn append(out: &mut Vec<u8>, src: &[u8])
    ensures
        final(out)@ == old(out)@ + src@,
{
    let mut i: usize = 0;
    while i < src.len()
        invariant
            i <= src@.len(),
            out@ == old(out)@ + src@.subrange(0, i as int),
        decreases src@.len() - i,
    {
        out.push(src[i]);
        i = i + 1;
        assert(out@ =~= old(out)@ + src@.subrange(0, i as int));
    }
    assert(src@.subrange(0, i as int) =~= src@);
}

/// Appends `n` in ASCII decimal.
pub fn push_decimal(out: &mut Vec<u8>, n: usize)
    ensures
        final(out)@ == old(out)@ + decimal(n as nat),
    decreases n,
{
    if n >= 10 {
        push_decimal(out, n / 10);
    }
    out.push((48 + n % 10) as u8);
    assert(out@ =~= old(out)@ + decimal(n as nat));
}

/// Parses a run of ASCII decimal digits into a `usize`; `None` when the line is
/// empty, holds anything but digits, or does not fit.
pub fn parse_decimal(s: &[u8]) -> (r: Option<usize>)
    ensures
        r is Some <==> is_digits(s@) && digits_value(s@) <= usize::MAX,
        r matches Some(v) ==> v as nat == digits_value(s@),
{
    if s.len() == 0 {
        return None;
    }
    let mut i: usize = 0;
    while i < s.len()
        invariant
            i <= s@.len(),
            forall|k: int| 0 <= k < i ==> is_digit(#[trigger] s@[k]),
        decreases s@.len() - i,
    {
        if s[i] < 48 || s[i] > 57 {
            return None;
        }
        i = i + 1;
    }
    let mut acc: usize = 0;
    let mut j: usize = 0;
    while j < s.len()
        invariant
            j <= s@.len(),
            forall|k: int| 0 <= k < s@.len() ==> is_digit(#[trigger] s@[k]),
            acc as nat == digits_value(s@.subrange(0, j as int)),
        decreases s@.len() - j,
    {
        let d = (s[j] - 48) as usize;
        proof {
            assert(s@.subrange(0, j + 1) =~= s@.subrange(0, j as int).push(s@[j as int]));
            lemma_digits_value_push(s@.subrange(0, j as int), s@[j as int]);
        }
        if acc > (usize::MAX - d) / 10 {
            proof {
                lemma_digits_value_prefix(s@, j + 1, s@.len() as int);
                assert(s@.subrange(0, s@.len() as int) =~= s@);
            }
            return None;
        }
        acc = acc * 10 + d;
        j = j + 1;
    }
    assert(s@.subrange(0, j as int) =~= s@);
    Some(acc)
}

/// Finds the line that starts at `pos`: `(end, next)` where `end` is the index
/// of its newline (or the input's end) and `next` where the next line starts.
pub fn read_line(b: &[u8], pos: usize) -> (r: Option<(usize, usize)>)
    ensures
        match next_line(b@, pos as int) {
            None => r is None,
            Some((line, next)) => r matches Some((e, n)) && e as int == line_end(b@, pos as int)
                && n as int == next && line == b@.subrange(pos as int, e as int) && pos <= e <= n
                <= b@.len(),
        },
{
    if pos >= b.len() {
        return None;
    }
    let mut i: usize = pos;
    while i < b.len() && b[i] != NEWLINE
        invariant
            pos <= i <= b@.len(),
            line_end(b@, pos as int) == line_end(b@, i as int),
        decreases b@.len() - i,
    {
        i = i + 1;
    }
    assert(line_end(b@, i as int) == i);
    if i < b.len() {
        Some((i, i + 1))
    } else {
        Some((i, i))
    }
}

} // verus!
