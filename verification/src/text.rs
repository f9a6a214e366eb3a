//! UTF-8 helpers.

use vstd::prelude::*;
use vstd::utf8::*;

verus! {

/// `n` is the length of the longest prefix of `bytes` that is valid UTF-8.
pub open spec fn is_longest_utf8(bytes: Seq<u8>, n: int) -> bool {
    &&& 0 <= n <= bytes.len()
    &&& valid_utf8(bytes.take(n))
    &&& forall|m: int| n < m <= bytes.len() ==> !valid_utf8(#[trigger] bytes.take(m))
}

/// The length of the longest prefix of `bytes` that is valid UTF-8.
pub open spec fn longest_utf8(bytes: Seq<u8>) -> int {
    choose|n: int| is_longest_utf8(bytes, n)
}

/// There is one longest valid prefix.
pub proof fn lemma_longest_utf8(bytes: Seq<u8>, n: int)
    requires
        is_longest_utf8(bytes, n),
    ensures
        longest_utf8(bytes) == n,
{
    let c = longest_utf8(bytes);
    assert(is_longest_utf8(bytes, c));
    assert(valid_utf8(bytes.take(c)) && valid_utf8(bytes.take(n)));
}

/// What [`String::from_utf8_lossy`] makes of a byte sequence.
pub uninterp spec fn lossy_text(bytes: Seq<u8>) -> Seq<char>;

/// Calls [`core::str::from_utf8`]. Its error tells how far the bytes are valid:
/// `valid_up_to` is documented as the maximum index such that the bytes before
/// it are valid UTF-8; where there is no error, all of them are.
#[verifier::external_body]
pub(crate) fn utf8_prefix(buf: &[u8]) -> (n: usize)
    ensures
        is_longest_utf8(buf@, n as int),
{
    match core::str::from_utf8(buf) {
        Ok(s) => s.len(),
        Err(e) => e.valid_up_to(),
    }
}

/// Calls [`String::from_utf8_lossy`]. Bytes that are valid UTF-8 are decoded as
/// they are. What stands for ill-formed bytes is named, not spelled out.
#[verifier::external_body]
pub(crate) fn utf8_lossy(buf: &[u8]) -> (text: String)
    ensures
        text@ == lossy_text(buf@),
        valid_utf8(buf@) ==> text@ == decode_utf8(buf@),
{
    String::from_utf8_lossy(buf).into_owned()
}

/// Splits a byte stream into its longest prefix that is valid UTF-8 and the
/// number of bytes that remain, so that a stream can be flushed without
/// breaking a multi-byte sequence.
pub fn utf8_split(buf: &[u8]) -> (split: (&[u8], usize))
    ensures
        is_longest_utf8(buf@, split.0@.len() as int),
        split.0@ == buf@.take(split.0@.len() as int),
        split.0@.len() + split.1 == buf@.len(),
{
    let n = utf8_prefix(buf);
    (&buf[0..n], buf.len() - n)
}

/// The encoding of a text grows by the encoding of a character.
pub proof fn lemma_encode_push(s: Seq<char>, c: char)
    ensures
        encode_utf8(s.push(c)) == encode_utf8(s) + encode_scalar(c as u32),
    decreases s.len(),
{
    let t = s.push(c);
    if s.len() == 0 {
        assert(t.drop_first() =~= Seq::<char>::empty());
        assert(encode_utf8(t.drop_first()) =~= Seq::<u8>::empty());
        assert(encode_utf8(t) =~= encode_scalar(c as u32));
        assert(encode_utf8(s) + encode_scalar(c as u32) =~= encode_scalar(c as u32));
    } else {
        assert(t.drop_first() =~= s.drop_first().push(c));
        lemma_encode_push(s.drop_first(), c);
        assert(encode_utf8(t) =~= encode_utf8(s) + encode_scalar(c as u32));
    }
}

/// Appends the UTF-8 encoding of a character.
pub(crate) fn push_utf8(out: &mut Vec<u8>, c: char)
    ensures
        final(out)@ == old(out)@ + encode_scalar(c as u32),
{
    let v = c as u32;
    if v <= 0x7f {
        out.push((v & 0x7F) as u8);
    } else if v <= 0x7ff {
        out.push(0xC0 | ((v >> 6) & 0x1F) as u8);
        out.push(0x80 | (v & 0x3F) as u8);
    } else if v <= 0xffff {
        out.push(0xE0 | ((v >> 12) & 0x0F) as u8);
        out.push(0x80 | ((v >> 6) & 0x3F) as u8);
        out.push(0x80 | (v & 0x3F) as u8);
    } else {
        out.push(0xF0 | ((v >> 18) & 0x7) as u8);
        out.push(0x80 | ((v >> 12) & 0x3F) as u8);
        out.push(0x80 | ((v >> 6) & 0x3F) as u8);
        out.push(0x80 | (v & 0x3F) as u8);
    }
    assert(out@ =~= old(out)@ + encode_scalar(c as u32));
}

/// Where bytes are valid, so is what is left of them behind a valid prefix.
proof fn lemma_rest_is_valid(a: Seq<u8>, b: Seq<u8>)
    requires
        valid_utf8(a),
        valid_utf8(a + b),
    ensures
        valid_utf8(b),
    decreases a.len(),
{
    if a.len() == 0 {
        assert(a + b =~= b);
    } else {
        let (p, q) = (pop_first_scalar(a), pop_first_scalar(a + b));
        assert(q =~= p + b);
        lemma_rest_is_valid(p, b);
    }
}

/// The longest valid prefix of bytes: it is valid, no longer one is, and bytes that
/// are valid are it as a whole.
pub proof fn law_longest_prefix(bytes: Seq<u8>, n: int, m: int)
    requires
        is_longest_utf8(bytes, n),
    ensures
        0 <= n <= bytes.len(),
        valid_utf8(bytes.take(n)),
        n < m <= bytes.len() ==> !valid_utf8(bytes.take(m)),
        valid_utf8(bytes) ==> n == bytes.len(),
        longest_utf8(bytes) == n,
{
    lemma_longest_utf8(bytes, n);
    assert(bytes.take(bytes.len() as int) =~= bytes);
}

/// It does not matter where a stream is cut: the valid prefix of the first part and
/// that of what it left together with the second are the valid prefix of the whole.
pub proof fn law_cuts_do_not_matter(a: Seq<u8>, b: Seq<u8>, m: int, k: int, n: int)
    requires
        is_longest_utf8(a, m),
        is_longest_utf8(a.skip(m) + b, k),
        is_longest_utf8(a + b, n),
    ensures
        n == m + k,
        (a + b).skip(n) == (a.skip(m) + b).skip(k),
        decode_utf8((a + b).take(n)) == decode_utf8(a.take(m)) + decode_utf8(
            (a.skip(m) + b).take(k),
        ),
{
    let (whole, rest) = (a + b, a.skip(m) + b);
    let (first, second) = (a.take(m), rest.take(k));
    assert(first + second =~= whole.take(m + k));
    valid_utf8_concat(first, second);
    assert(valid_utf8(whole.take(m + k)));
    assert(n >= m + k) by {
        if n < m + k {
            assert(!valid_utf8(whole.take(m + k)));
        }
    }
    if n > m + k {
        let more = rest.take(n - m);
        assert(first + more =~= whole.take(n));
        lemma_rest_is_valid(first, more);
        assert(!valid_utf8(rest.take(n - m)));
    }
    assert(whole.skip(n) =~= rest.skip(k));
    decode_utf8_encode_utf8(first);
    decode_utf8_encode_utf8(second);
    let (s, t) = (decode_utf8(first), decode_utf8(second));
    lemma_encode_concat(s, t);
    encode_utf8_decode_utf8(s + t);
}

/// The encoding of two texts one after the other.
proof fn lemma_encode_concat(s: Seq<char>, t: Seq<char>)
    ensures
        encode_utf8(s + t) == encode_utf8(s) + encode_utf8(t),
    decreases t.len(),
{
    if t.len() == 0 {
        assert(s + t =~= s);
        assert(encode_utf8(s) + encode_utf8(t) =~= encode_utf8(s));
    } else {
        let u = t.drop_last();
        assert(s + t =~= (s + u).push(t.last()));
        assert(t =~= u.push(t.last()));
        lemma_encode_push(s + u, t.last());
        lemma_encode_push(u, t.last());
        lemma_encode_concat(s, u);
        assert(encode_utf8(s + t) =~= encode_utf8(s) + encode_utf8(t));
    }
}

} // verus!
