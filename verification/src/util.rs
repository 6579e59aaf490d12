//! Small byte-sequence helpers shared by the protocol modules:
//! equality and order on byte strings, and decimal numerals.

use vstd::prelude::*;

verus! {

/// Byte-for-byte equality of two byte strings.
pub fn bytes_eq(a: &[u8], b: &[u8]) -> (r: bool)
    ensures
        r == (a@ == b@),
{
    if a.len() != b.len() {
        assert(a@ != b@);
        return false;
    }
    let mut i: usize = 0;
    while i < a.len()
        invariant
            0 <= i <= a@.len(),
            a@.len() == b@.len(),
            forall|k: int| 0 <= k < i ==> a@[k] == b@[k],
        decreases a@.len() - i,
    {
        if a[i] != b[i] {
            return false;
        }
        i = i + 1;
    }
    proof {
        assert(a@ =~= b@);
    }
    true
}

/// `true` when `b` is an ASCII decimal digit.
pub open spec fn is_digit(b: u8) -> bool {
    48 <= b <= 57
}

/// Every byte of `s` is an ASCII decimal digit.
pub open spec fn all_digits(s: Seq<u8>) -> bool {
    forall|k: int| 0 <= k < s.len() ==> is_digit(#[trigger] s[k])
}

/// The number written by the digit string `s`, most significant first.
pub open spec fn dec_value(s: Seq<u8>) -> int
    decreases s.len(),
{
    if s.len() == 0 {
        0
    } else {
        dec_value(s.drop_last()) * 10 + (s.last() - 48)
    }
}

/// The value of a digit string is never negative.
pub proof fn lemma_dec_value_nonneg(s: Seq<u8>)
    requires
        all_digits(s),
    ensures
        dec_value(s) >= 0,
    decreases s.len(),
{
    if s.len() > 0 {
        assert(all_digits(s.drop_last()));
        lemma_dec_value_nonneg(s.drop_last());
    }
}

/// Appending digits never lowers the value of a digit string.
pub proof fn lemma_dec_value_prefix_le(s: Seq<u8>, i: int, j: int)
    requires
        0 <= i <= j <= s.len(),
        forall|k: int| 0 <= k < j ==> is_digit(#[trigger] s[k]),
    ensures
        dec_value(s.take(i)) <= dec_value(s.take(j)),
    decreases j - i,
{
    if i < j {
        lemma_dec_value_prefix_le(s, i, j - 1);
        assert(s.take(j).drop_last() =~= s.take(j - 1));
        assert(all_digits(s.take(j - 1)));
        lemma_dec_value_nonneg(s.take(j - 1));
        assert(dec_value(s.take(j)) == dec_value(s.take(j - 1)) * 10 + (s.take(j).last() - 48));
    }
}

/// The digit prefix is part of the string.
pub proof fn lemma_digit_prefix_len_le(s: Seq<u8>)
    ensures
        digit_prefix_len(s) <= s.len(),
    decreases s.len(),
{
    if s.len() > 0 && is_digit(s[0]) {
        lemma_digit_prefix_len_le(s.drop_first());
    }
}

/// Every byte of the digit prefix is a digit.
pub proof fn lemma_digit_prefix_digits(s: Seq<u8>)
    ensures
        forall|k: int| 0 <= k < digit_prefix_len(s) ==> is_digit(#[trigger] s[k]),
    decreases s.len(),
{
    lemma_digit_prefix_len_le(s);
    if s.len() > 0 && is_digit(s[0]) {
        lemma_digit_prefix_digits(s.drop_first());
        lemma_digit_prefix_len_le(s.drop_first());
        assert forall|k: int| 0 <= k < digit_prefix_len(s) implies is_digit(#[trigger] s[k]) by {
            if k > 0 {
                assert(s.drop_first()[k - 1] == s[k]);
                assert(is_digit(s.drop_first()[k - 1]));
            }
        }
    }
}

/// The length of the run of digits that opens `s`.
pub open spec fn digit_prefix_len(s: Seq<u8>) -> nat
    decreases s.len(),
{
    if s.len() == 0 || !is_digit(s[0]) {
        0
    } else {
        1 + digit_prefix_len(s.drop_first())
    }
}

pub proof fn lemma_digit_prefix_len(s: Seq<u8>, n: int)
    requires
        0 <= n <= s.len(),
        forall|k: int| 0 <= k < n ==> is_digit(#[trigger] s[k]),
        n == s.len() || !is_digit(s[n]),
    ensures
        digit_prefix_len(s) == n,
    decreases s.len(),
{
    if n == 0 {
    } else {
        assert(is_digit(s[0]));
        assert forall|k: int| 0 <= k < n - 1 implies is_digit(#[trigger] s.drop_first()[k]) by {
            assert(s.drop_first()[k] == s[k + 1]);
        }
        if n < s.len() {
            assert(s.drop_first()[n - 1] == s[n]);
        }
        lemma_digit_prefix_len(s.drop_first(), n - 1);
    }
}

/// The value of the digit run that opens `s`.
pub open spec fn leading_value(s: Seq<u8>) -> int {
    dec_value(s.take(digit_prefix_len(s) as int))
}

/// Parse the run of decimal digits that opens `item`, as the
/// most-toys application reads a toy's count.  `None` when no digit
/// opens the item or the number does not fit in a `u32`.
pub fn leading_number(item: &[u8]) -> (r: Option<u32>)
    ensures
        match r {
            Some(v) => digit_prefix_len(item@) > 0 && leading_value(item@) <= u32::MAX && v
                == leading_value(item@),
            None => digit_prefix_len(item@) == 0 || leading_value(item@) > u32::MAX,
        },
{
    if item.len() == 0 || item[0] < 48 || item[0] > 57 {
        assert(digit_prefix_len(item@) == 0);
        return None;
    }
    let mut i: usize = 0;
    let mut v: u64 = 0;
    while i < item.len() && item[i] >= 48 && item[i] <= 57
        invariant
            0 <= i <= item@.len(),
            forall|k: int| 0 <= k < i ==> is_digit(#[trigger] item@[k]),
            v == dec_value(item@.take(i as int)),
            v <= u32::MAX,
        decreases item@.len() - i,
    {
        let d = item[i];
        proof {
            assert(item@.take(i + 1).drop_last() =~= item@.take(i as int));
            assert(item@.take(i + 1).last() == item@[i as int]);
        }
        let next: u64 = v * 10 + ((d - 48) as u64);
        if next > u32::MAX as u64 {
            proof {
                assert(forall|k: int|
                    0 <= k < i + 1 ==> is_digit(#[trigger] item@[k]));
                lemma_digit_prefix_len_at_least(item@, i + 1);
                lemma_digit_prefix_len_le(item@);
                lemma_digit_prefix_digits(item@);
                lemma_dec_value_prefix_le(item@, i + 1, digit_prefix_len(item@) as int);
            }
            return None;
        }
        v = next;
        i = i + 1;
    }
    proof {
        lemma_digit_prefix_len(item@, i as int);
    }
    Some(v as u32)
}

/// The digit prefix reaches at least to `n` when all bytes before it
/// are digits.
pub proof fn lemma_digit_prefix_len_at_least(s: Seq<u8>, n: int)
    requires
        0 <= n <= s.len(),
        forall|k: int| 0 <= k < n ==> is_digit(#[trigger] s[k]),
    ensures
        digit_prefix_len(s) >= n,
    decreases s.len(),
{
    if n > 0 {
        assert forall|k: int| 0 <= k < n - 1 implies is_digit(#[trigger] s.drop_first()[k]) by {
            assert(s.drop_first()[k] == s[k + 1]);
        }
        lemma_digit_prefix_len_at_least(s.drop_first(), n - 1);
    }
}

/// The decimal numeral of `n`, most significant digit first.
pub open spec fn dec_digits(n: nat) -> Seq<u8>
    decreases n,
{
    if n < 10 {
        seq![(n + 48) as u8]
    } else {
        dec_digits(n / 10).push((n % 10 + 48) as u8)
    }
}

/// Write `n` in decimal.
pub fn format_dec(n: u64) -> (r: Vec<u8>)
    ensures
        r@ == dec_digits(n as nat),
{
    let mut rev: Vec<u8> = Vec::new();
    let mut m: u64 = n;
    loop
        invariant_except_break
            dec_digits(n as nat) =~= dec_digits(m as nat) + rev@.reverse(),
        ensures
            dec_digits(n as nat) =~= rev@.reverse(),
        decreases m,
    {
        let d: u8 = (m % 10) as u8 + 48;
        let ghost old_rev = rev@;
        rev.push(d);
        proof {
            assert(rev@.reverse() =~= seq![d] + old_rev.reverse());
        }
        if m < 10 {
            proof {
                assert(dec_digits(m as nat) =~= seq![d]);
                assert(dec_digits(n as nat) =~= rev@.reverse());
            }
            break;
        }
        proof {
            assert(dec_digits(m as nat) =~= dec_digits((m as nat) / 10).push(d));
            assert(dec_digits((m as nat) / 10).push(d) =~= dec_digits((m as nat) / 10) + seq![d]);
            assert(dec_digits(n as nat) =~= dec_digits((m as nat) / 10) + rev@.reverse());
        }
        m = m / 10;
    }
    let mut out: Vec<u8> = Vec::new();
    let mut i: usize = rev.len();
    while i > 0
        invariant
            0 <= i <= rev@.len(),
            dec_digits(n as nat) =~= rev@.reverse(),
            out@ =~= rev@.reverse().take(rev@.len() - i),
        decreases i,
    {
        i = i - 1;
        out.push(rev[i]);
        proof {
            assert(out@ =~= rev@.reverse().take(rev@.len() - i));
        }
    }
    proof {
        assert(rev@.reverse().take(rev@.len() as int) =~= rev@.reverse());
    }
    out
}

/// Parse an all-digit byte string as a decimal number.  `None` when
/// `s` is empty, holds a non-digit, or writes a number above `max`.
pub fn parse_dec_bounded(s: &[u8], max: u64) -> (r: Option<u64>)
    ensures
        match r {
            Some(v) => s@.len() > 0 && all_digits(s@) && v == dec_value(s@) && v <= max,
            None => s@.len() == 0 || !all_digits(s@) || dec_value(s@) > max,
        },
{
    if s.len() == 0 {
        return None;
    }
    let mut i: usize = 0;
    let mut v: u64 = 0;
    while i < s.len()
        invariant
            0 <= i <= s@.len(),
            forall|k: int| 0 <= k < i ==> is_digit(#[trigger] s@[k]),
            v == dec_value(s@.take(i as int)),
            v <= max,
            max <= u64::MAX,
        decreases s@.len() - i,
    {
        let d = s[i];
        if d < 48 || d > 57 {
            assert(!all_digits(s@));
            return None;
        }
        proof {
            assert(s@.take(i + 1).drop_last() =~= s@.take(i as int));
            assert(s@.take(i + 1).last() == s@[i as int]);
        }
        if v > max / 10 || (v == max / 10 && ((d - 48) as u64) > max % 10) {
            proof {
                assert(s@.take(i + 1).last() == s@[i as int]);
                if all_digits(s@) {
                    lemma_dec_value_prefix_le(s@, i + 1, s@.len() as int);
                    assert(s@.take(s@.len() as int) =~= s@);
                }
            }
            return None;
        }
        v = v * 10 + ((d - 48) as u64);
        i = i + 1;
    }
    proof {
        assert(s@.take(s@.len() as int) =~= s@);
    }
    Some(v)
}


/// `s` cut at every occurrence of `d`; always at least one piece,
/// empty pieces kept.
pub open spec fn split_on(s: Seq<u8>, d: u8) -> Seq<Seq<u8>>
    decreases s.len(),
{
    if s.len() == 0 {
        seq![Seq::<u8>::empty()]
    } else if s.last() == d {
        split_on(s.drop_last(), d).push(Seq::<u8>::empty())
    } else {
        let r = split_on(s.drop_last(), d);
        r.update(r.len() - 1, r.last().push(s.last()))
    }
}

pub proof fn lemma_split_on_len(s: Seq<u8>, d: u8)
    ensures
        split_on(s, d).len() >= 1,
    decreases s.len(),
{
    if s.len() > 0 {
        lemma_split_on_len(s.drop_last(), d);
    }
}

/// Cut `s` at every occurrence of `d`.
pub fn split_bytes(s: &[u8], d: u8) -> (r: Vec<Vec<u8>>)
    ensures
        r.deep_view() == split_on(s@, d),
{
    let mut done: Vec<Vec<u8>> = Vec::new();
    let mut cur: Vec<u8> = Vec::new();
    let mut i: usize = 0;
    while i < s.len()
        invariant
            0 <= i <= s@.len(),
            done.deep_view().push(cur@) =~~= split_on(s@.take(i as int), d),
        decreases s@.len() - i,
    {
        let b = s[i];
        proof {
            assert(s@.take(i + 1).drop_last() =~= s@.take(i as int));
            assert(s@.take(i + 1).last() == s@[i as int]);
        }
        if b == d {
            done.push(cur);
            cur = Vec::new();
            proof {
                assert(done.deep_view().push(cur@) =~~= split_on(s@.take(i + 1), d));
            }
        } else {
            cur.push(b);
            proof {
                assert(done.deep_view().push(cur@) =~~= split_on(s@.take(i + 1), d));
            }
        }
        i = i + 1;
    }
    done.push(cur);
    proof {
        assert(s@.take(s@.len() as int) =~= s@);
        assert(done.deep_view() =~~= split_on(s@, d));
    }
    done
}



/// Lexicographic order on byte strings, as a sort ascending orders
/// them.
pub open spec fn lex_le(a: Seq<u8>, b: Seq<u8>) -> bool
    decreases a.len(),
{
    if a.len() == 0 {
        true
    } else if b.len() == 0 {
        false
    } else if a[0] < b[0] {
        true
    } else if a[0] > b[0] {
        false
    } else {
        lex_le(a.drop_first(), b.drop_first())
    }
}

/// Any two byte strings are ordered one way or the other.
pub proof fn lemma_lex_total(a: Seq<u8>, b: Seq<u8>)
    ensures
        lex_le(a, b) || lex_le(b, a),
    decreases a.len(),
{
    if a.len() > 0 && b.len() > 0 && a[0] == b[0] {
        lemma_lex_total(a.drop_first(), b.drop_first());
    }
}

/// Compare two byte strings lexicographically.
pub fn bytes_le(a: &[u8], b: &[u8]) -> (r: bool)
    ensures
        r == lex_le(a@, b@),
{
    let mut i: usize = 0;
    proof {
        assert(a@.skip(0) =~= a@);
        assert(b@.skip(0) =~= b@);
    }
    while i < a.len() && i < b.len()
        invariant
            0 <= i <= a@.len(),
            0 <= i <= b@.len(),
            lex_le(a@, b@) == lex_le(a@.skip(i as int), b@.skip(i as int)),
            forall|k: int| 0 <= k < i ==> a@[k] == b@[k],
        decreases a@.len() - i,
    {
        proof {
            assert(a@.skip(i as int)[0] == a@[i as int]);
            assert(b@.skip(i as int)[0] == b@[i as int]);
            assert(a@.skip(i as int).drop_first() =~= a@.skip(i + 1));
            assert(b@.skip(i as int).drop_first() =~= b@.skip(i + 1));
        }
        if a[i] < b[i] {
            return true;
        }
        if a[i] > b[i] {
            return false;
        }
        i = i + 1;
    }
    proof {
        if i >= a@.len() {
            assert(a@.skip(i as int) =~= Seq::<u8>::empty());
        } else {
            assert(b@.skip(i as int) =~= Seq::<u8>::empty());
            assert(a@.skip(i as int).len() > 0);
        }
    }
    a.len() <= b.len()
}


/// The four bytes of `v`, big endian.
pub open spec fn enc_u32(v: u32) -> Seq<u8> {
    seq![
        ((v >> 24) & 0xff) as u8,
        ((v >> 16) & 0xff) as u8,
        ((v >> 8) & 0xff) as u8,
        (v & 0xff) as u8,
    ]
}

/// The big-endian value of the four bytes at `i`.
pub open spec fn be32_at(d: Seq<u8>, i: int) -> u32 {
    (((d[i] as u32) << 24) | ((d[i + 1] as u32) << 16) | ((d[i + 2] as u32) << 8) | (d[i
        + 3] as u32))
}

pub proof fn lemma_be32_of_enc(v: u32)
    ensures
        be32_at(enc_u32(v), 0) == v,
{
    let b0 = ((v >> 24) & 0xff) as u8;
    let b1 = ((v >> 16) & 0xff) as u8;
    let b2 = ((v >> 8) & 0xff) as u8;
    let b3 = (v & 0xff) as u8;
    assert((((b0 as u32) << 24) | ((b1 as u32) << 16) | ((b2 as u32) << 8) | (b3 as u32)) == v)
        by (bit_vector)
        requires
            b0 == ((v >> 24) & 0xff) as u8,
            b1 == ((v >> 16) & 0xff) as u8,
            b2 == ((v >> 8) & 0xff) as u8,
            b3 == (v & 0xff) as u8,
    ;
}


/// Read four big-endian bytes at `i`.
pub open spec fn parse_u32_at(d: Seq<u8>, i: int) -> Option<(u32, int)> {
    if 0 <= i && i + 4 <= d.len() {
        Some((be32_at(d, i), i + 4))
    } else {
        None
    }
}

/// Read one byte at `i`.
pub open spec fn parse_u8_at(d: Seq<u8>, i: int) -> Option<(u8, int)> {
    if 0 <= i && i + 1 <= d.len() {
        Some((d[i], i + 1))
    } else {
        None
    }
}


pub proof fn lemma_parse_u32_at_enc(d: Seq<u8>, i: int, v: u32)
    requires
        0 <= i,
        i + 4 <= d.len(),
        d.subrange(i, i + 4) == enc_u32(v),
    ensures
        parse_u32_at(d, i) == Some((v, i + 4)),
{
    lemma_be32_of_enc(v);
    assert(d[i] == enc_u32(v)[0] && d[i + 1] == enc_u32(v)[1] && d[i + 2] == enc_u32(v)[2] && d[i
        + 3] == enc_u32(v)[3]) by {
        assert(d.subrange(i, i + 4)[0] == d[i]);
        assert(d.subrange(i, i + 4)[1] == d[i + 1]);
        assert(d.subrange(i, i + 4)[2] == d[i + 2]);
        assert(d.subrange(i, i + 4)[3] == d[i + 3]);
    }
}


} // verus!
