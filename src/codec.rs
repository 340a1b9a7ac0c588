//! The binary wire and snapshot format: little-endian integers, length-prefixed
//! UTF-8 text, optional values behind a one-byte flag, length-prefixed sequences.
use vstd::prelude::*;
use vstd::utf8::{decode_utf8, encode_utf8, valid_utf8};

verus! {

broadcast use vstd::utf8::encode_utf8_valid_utf8, vstd::utf8::encode_utf8_decode_utf8;

/// Why bytes could not be decoded.
#[derive(Debug, Clone, Copy, PartialEq, Eq)]
pub enum CodecError {
    /// The input ended before the value did.
    UnexpectedEnd,
    /// A text field did not hold UTF-8.
    InvalidUtf8,
    /// A position does not fit in a `usize` on this machine.
    TooLarge,
    /// A command tag that no command has.
    InvalidTag,
}

/// The eight little-endian bytes of `n`.
pub open spec fn le_bytes(n: u64) -> Seq<u8> {
    seq![
        n as u8,
        (n >> 8u64) as u8,
        (n >> 16u64) as u8,
        (n >> 24u64) as u8,
        (n >> 32u64) as u8,
        (n >> 40u64) as u8,
        (n >> 48u64) as u8,
        (n >> 56u64) as u8,
    ]
}

/// Text: its UTF-8 length as a `u64`, then its UTF-8 bytes.
pub open spec fn text_bytes(s: Seq<char>) -> Seq<u8> {
    le_bytes(encode_utf8(s).len() as u64) + encode_utf8(s)
}

/// An optional id: a 0 byte when absent, else a 1 byte and the id.
pub open spec fn opt_u64_bytes(o: Option<u64>) -> Seq<u8> {
    match o {
        Some(n) => seq![1u8] + le_bytes(n),
        None => seq![0u8],
    }
}

/// The concatenated encodings of the ids of `s`.
pub open spec fn u64s_body(s: Seq<u64>) -> Seq<u8>
    decreases s.len(),
{
    if s.len() == 0 {
        Seq::empty()
    } else {
        u64s_body(s.drop_last()) + le_bytes(s.last())
    }
}

/// A sequence of ids: its length, then each id.
pub open spec fn u64s_bytes(s: Seq<u64>) -> Seq<u8> {
    le_bytes(s.len() as u64) + u64s_body(s)
}

/// The concatenated encodings of the texts of `s`.
pub open spec fn texts_body(s: Seq<Seq<char>>) -> Seq<u8>
    decreases s.len(),
{
    if s.len() == 0 {
        Seq::empty()
    } else {
        texts_body(s.drop_last()) + text_bytes(s.last())
    }
}

/// A sequence of texts: its length, then each text.
pub open spec fn texts_bytes(s: Seq<Seq<char>>) -> Seq<u8> {
    le_bytes(s.len() as u64) + texts_body(s)
}

/// `buf` holds `enc` at position `pos`.
pub open spec fn holds_at(buf: Seq<u8>, pos: int, enc: Seq<u8>) -> bool {
    &&& 0 <= pos
    &&& pos + enc.len() <= buf.len()
    &&& buf.subrange(pos, pos + enc.len()) == enc
}

/// `buf` ends after `pos` but before the end of `enc`, and holds the part of
/// `enc` that fits: the encoding (of a size memory can hold) of a value, cut short.
pub open spec fn cut_at(buf: Seq<u8>, pos: int, enc: Seq<u8>) -> bool {
    &&& enc.len() <= usize::MAX
    &&& 0 <= pos <= buf.len()
    &&& buf.len() < pos + enc.len()
    &&& buf.subrange(pos, buf.len() as int) == enc.subrange(0, buf.len() - pos)
}

/// An encoding cut short is cut within its first part, or holds its first part
/// and is cut within the second.
pub proof fn lemma_cut_split(buf: Seq<u8>, pos: int, a: Seq<u8>, b: Seq<u8>)
    requires
        cut_at(buf, pos, a + b),
    ensures
        cut_at(buf, pos, a) || (holds_at(buf, pos, a) && cut_at(buf, pos + a.len(), b)),
{
    let n = buf.len() - pos;
    if buf.len() < pos + a.len() {
        assert(buf.subrange(pos, buf.len() as int) =~= a.subrange(0, n)) by {
            assert forall|i: int| 0 <= i < n implies buf.subrange(pos, buf.len() as int)[i] == a.subrange(0, n)[i] by {
                assert(buf.subrange(pos, buf.len() as int)[i] == (a + b).subrange(0, n)[i]);
            }
        }
    } else {
        assert(buf.subrange(pos, pos + a.len()) =~= a) by {
            assert forall|i: int| 0 <= i < a.len() implies buf.subrange(pos, pos + a.len())[i] == a[i] by {
                assert(buf.subrange(pos, buf.len() as int)[i] == (a + b).subrange(0, n)[i]);
            }
        }
        let m = buf.len() - pos - a.len();
        assert(buf.subrange(pos + a.len(), buf.len() as int) =~= b.subrange(0, m)) by {
            assert forall|i: int| 0 <= i < m implies buf.subrange(pos + a.len(), buf.len() as int)[i] == b.subrange(0, m)[i] by {
                assert(buf.subrange(pos, buf.len() as int)[i + a.len()] == (a + b).subrange(0, n)[i + a.len()]);
            }
        }
    }
}

/// As `lemma_cut_split`, as an implication.
pub proof fn lemma_cut_split_if(buf: Seq<u8>, pos: int, a: Seq<u8>, b: Seq<u8>)
    ensures
        cut_at(buf, pos, a + b) ==> cut_at(buf, pos, a) || (holds_at(buf, pos, a) && cut_at(buf, pos + a.len(), b)),
{
    if cut_at(buf, pos, a + b) {
        lemma_cut_split(buf, pos, a, b);
    }
}

/// Where an encoding is cut short, a prefix of it is cut short or found whole.
pub proof fn lemma_cut_prefix(buf: Seq<u8>, pos: int, y: Seq<u8>, w: Seq<u8>)
    requires
        cut_at(buf, pos, w),
        y.len() <= w.len(),
        w.subrange(0, y.len() as int) == y,
    ensures
        cut_at(buf, pos, y) || holds_at(buf, pos, y),
{
    let rest = w.subrange(y.len() as int, w.len() as int);
    assert(w =~= y + rest);
    lemma_cut_split(buf, pos, y, rest);
}

/// Within an encoding cut short, the element after a whole prefix `pre` is cut
/// short or found whole.
pub proof fn lemma_cut_step(buf: Seq<u8>, start: int, pre: Seq<u8>, elem: Seq<u8>, w: Seq<u8>)
    requires
        cut_at(buf, start, w),
        (pre + elem).len() <= w.len(),
        w.subrange(0, (pre + elem).len() as int) == pre + elem,
        start + pre.len() <= buf.len(),
    ensures
        cut_at(buf, start + pre.len(), elem) || holds_at(buf, start + pre.len(), elem),
{
    lemma_cut_prefix(buf, start, pre + elem, w);
    if holds_at(buf, start, pre + elem) {
        lemma_holds_concat(buf, start, pre, elem);
    } else {
        lemma_cut_split(buf, start, pre, elem);
    }
}

proof fn lemma_le_bytes_inverse(n: u64, b: Seq<u8>)
    requires
        b == le_bytes(n),
    ensures
        (b[0] as u64) | ((b[1] as u64) << 8u64) | ((b[2] as u64) << 16u64) | ((b[3] as u64) << 24u64)
            | ((b[4] as u64) << 32u64) | ((b[5] as u64) << 40u64) | ((b[6] as u64) << 48u64)
            | ((b[7] as u64) << 56u64) == n,
{
    let b0 = n as u8;
    let b1 = (n >> 8u64) as u8;
    let b2 = (n >> 16u64) as u8;
    let b3 = (n >> 24u64) as u8;
    let b4 = (n >> 32u64) as u8;
    let b5 = (n >> 40u64) as u8;
    let b6 = (n >> 48u64) as u8;
    let b7 = (n >> 56u64) as u8;
    assert((b0 as u64) | ((b1 as u64) << 8u64) | ((b2 as u64) << 16u64) | ((b3 as u64) << 24u64)
        | ((b4 as u64) << 32u64) | ((b5 as u64) << 40u64) | ((b6 as u64) << 48u64) | ((b7 as u64) << 56u64)
        == n) by (bit_vector)
        requires
            b0 == n as u8,
            b1 == (n >> 8u64) as u8,
            b2 == (n >> 16u64) as u8,
            b3 == (n >> 24u64) as u8,
            b4 == (n >> 32u64) as u8,
            b5 == (n >> 40u64) as u8,
            b6 == (n >> 48u64) as u8,
            b7 == (n >> 56u64) as u8,
    ;
}

/// Appends the little-endian bytes of `n`.
pub fn put_u64(out: &mut Vec<u8>, n: u64)
    ensures
        final(out)@ == old(out)@ + le_bytes(n),
{
    out.push(n as u8);
    out.push((n >> 8) as u8);
    out.push((n >> 16) as u8);
    out.push((n >> 24) as u8);
    out.push((n >> 32) as u8);
    out.push((n >> 40) as u8);
    out.push((n >> 48) as u8);
    out.push((n >> 56) as u8);
    assert(out@ =~= old(out)@ + le_bytes(n));
}

/// Reads a little-endian `u64` at `pos`; returns it and the position after it.
pub fn get_u64(buf: &[u8], pos: usize) -> (r: Result<(u64, usize), CodecError>)
    ensures
        match r {
            Ok((n, p)) => p == pos + 8 && holds_at(buf@, pos as int, le_bytes(n)),
            Err(e) => e == CodecError::UnexpectedEnd && buf@.len() < pos + 8,
        },
        forall|n: u64| holds_at(buf@, pos as int, #[trigger] le_bytes(n)) ==> r == Ok::<(u64, usize), CodecError>((n, (pos + 8) as usize)),
        forall|n: u64| cut_at(buf@, pos as int, #[trigger] le_bytes(n)) ==> r is Err,
{
    if buf.len() < 8 || pos > buf.len() - 8 {
        return Err(CodecError::UnexpectedEnd);
    }
    let ghost b = buf@.subrange(pos as int, pos + 8);
    let n = (buf[pos] as u64) | ((buf[pos + 1] as u64) << 8) | ((buf[pos + 2] as u64) << 16) | ((buf[pos + 3] as u64) << 24)
        | ((buf[pos + 4] as u64) << 32) | ((buf[pos + 5] as u64) << 40) | ((buf[pos + 6] as u64) << 48)
        | ((buf[pos + 7] as u64) << 56);
    proof {
        lemma_le_bytes_inverse(n, le_bytes(n));
        let m = n;
        assert(le_bytes(m) =~= b) by {
            let (b0, b1, b2, b3, b4, b5, b6, b7) = (b[0], b[1], b[2], b[3], b[4], b[5], b[6], b[7]);
            assert(
                (b0 as u64) | ((b1 as u64) << 8u64) | ((b2 as u64) << 16u64) | ((b3 as u64) << 24u64)
                | ((b4 as u64) << 32u64) | ((b5 as u64) << 40u64) | ((b6 as u64) << 48u64) | ((b7 as u64) << 56u64) == m
                ==> m as u8 == b0 && (m >> 8u64) as u8 == b1 && (m >> 16u64) as u8 == b2 && (m >> 24u64) as u8 == b3
                && (m >> 32u64) as u8 == b4 && (m >> 40u64) as u8 == b5 && (m >> 48u64) as u8 == b6 && (m >> 56u64) as u8 == b7
            ) by (bit_vector);
        }
        assert forall|k: u64| holds_at(buf@, pos as int, #[trigger] le_bytes(k)) implies k == n by {
            lemma_le_bytes_inverse(k, le_bytes(k));
        }
    }
    Ok((n, pos + 8))
}


/// An encoding followed by another is found where the first is found and the
/// second right after it.
pub proof fn lemma_holds_concat(buf: Seq<u8>, pos: int, a: Seq<u8>, b: Seq<u8>)
    ensures
        holds_at(buf, pos, a + b) <==> holds_at(buf, pos, a) && holds_at(buf, pos + a.len(), b),
{
    if holds_at(buf, pos, a + b) {
        let whole = buf.subrange(pos, pos + (a + b).len());
        assert forall|i: int| 0 <= i < a.len() implies buf.subrange(pos, pos + a.len())[i] == a[i] by {
            assert(whole[i] == (a + b)[i]);
        }
        assert forall|i: int| 0 <= i < b.len() implies buf.subrange(pos + a.len(), pos + a.len() + b.len())[i] == b[i] by {
            assert(whole[i + a.len()] == (a + b)[i + a.len()]);
        }
        assert(buf.subrange(pos, pos + a.len()) =~= a);
        assert(buf.subrange(pos + a.len(), pos + a.len() + b.len()) =~= b);
    }
    if holds_at(buf, pos, a) && holds_at(buf, pos + a.len(), b) {
        let whole = buf.subrange(pos, pos + (a + b).len());
        assert forall|i: int| 0 <= i < (a + b).len() implies whole[i] == (a + b)[i] by {
            if i < a.len() {
                assert(buf.subrange(pos, pos + a.len())[i] == a[i]);
            } else {
                assert(buf.subrange(pos + a.len(), pos + a.len() + b.len())[i - a.len()] == b[i - a.len()]);
            }
        }
        assert(whole =~= a + b);
    }
}

/// What is found where a longer encoding is found is found there too.
pub proof fn lemma_holds_prefix(buf: Seq<u8>, pos: int, a: Seq<u8>, whole: Seq<u8>)
    requires
        holds_at(buf, pos, whole),
        a.len() <= whole.len(),
        whole.subrange(0, a.len() as int) == a,
    ensures
        holds_at(buf, pos, a),
{
    assert(buf.subrange(pos, pos + a.len()) =~= whole.subrange(0, a.len() as int));
}

/// Relies on std's `String::from_utf8`: it succeeds exactly on valid UTF-8, and
/// then holds the characters those bytes encode.
#[verifier::external_body]
fn string_from_utf8(v: Vec<u8>) -> (r: Option<String>)
    ensures
        r is Some <==> valid_utf8(v@),
        r matches Some(s) ==> s@ == decode_utf8(v@),
{
    String::from_utf8(v).ok()
}

/// Appends `s` as text.
pub fn put_text(out: &mut Vec<u8>, s: &str)
    ensures
        final(out)@ == old(out)@ + text_bytes(s@),
{
    let bytes = s.as_bytes();
    put_u64(out, bytes.len() as u64);
    let ghost start = out@;
    let mut i: usize = 0;
    while i < bytes.len()
        invariant
            i <= bytes@.len(),
            bytes@ == encode_utf8(s@),
            out@ == start + bytes@.subrange(0, i as int),
        decreases bytes.len() - i,
    {
        out.push(bytes[i]);
        i += 1;
        assert(out@ =~= start + bytes@.subrange(0, i as int));
    }
    assert(bytes@.subrange(0, i as int) =~= bytes@);
    assert(out@ =~= old(out)@ + text_bytes(s@));
}

/// Reads text at `pos`; returns it and the position after it.
pub fn get_text(buf: &[u8], pos: usize) -> (r: Result<(String, usize), CodecError>)
    ensures
        r matches Ok((t, p)) ==> p == pos + text_bytes(t@).len() && holds_at(buf@, pos as int, text_bytes(t@)),
        forall|s: Seq<char>| holds_at(buf@, pos as int, #[trigger] text_bytes(s)) ==> (r matches Ok((t, p))
            && t@ == s && p == pos + text_bytes(s).len()),
        forall|s: Seq<char>| cut_at(buf@, pos as int, #[trigger] text_bytes(s)) ==> r is Err,
{
    proof {
        assert forall|s: Seq<char>| cut_at(buf@, pos as int, #[trigger] text_bytes(s)) implies
            cut_at(buf@, pos as int, le_bytes(encode_utf8(s).len() as u64))
            || (holds_at(buf@, pos as int, le_bytes(encode_utf8(s).len() as u64)) && cut_at(buf@, pos + 8, encode_utf8(s))) by {
            lemma_cut_split(buf@, pos as int, le_bytes(encode_utf8(s).len() as u64), encode_utf8(s));
        }
    }
    proof {
        assert forall|s: Seq<char>| holds_at(buf@, pos as int, #[trigger] text_bytes(s)) implies
            holds_at(buf@, pos as int, le_bytes(encode_utf8(s).len() as u64))
            && holds_at(buf@, pos + 8, encode_utf8(s)) by {
            lemma_holds_concat(buf@, pos as int, le_bytes(encode_utf8(s).len() as u64), encode_utf8(s));
        }
    }
    let (len, p) = get_u64(buf, pos)?;
    if len > (buf.len() - p) as u64 {
        return Err(CodecError::UnexpectedEnd);
    }
    let len = len as usize;
    let buf_len = buf.len();
    let mut bytes: Vec<u8> = Vec::new();
    let mut i: usize = 0;
    while i < len
        invariant
            i <= len,
            p + len <= buf@.len(),
            buf@.len() == buf_len,
            bytes@ == buf@.subrange(p as int, p + i),
        decreases len - i,
    {
        bytes.push(buf[p + i]);
        i += 1;
        assert(bytes@ =~= buf@.subrange(p as int, p + i));
    }
    let ghost raw = bytes@;
    match string_from_utf8(bytes) {
        Some(t) => {
            proof {
                vstd::utf8::decode_utf8_encode_utf8(raw);
                lemma_holds_concat(buf@, pos as int, le_bytes(len as u64), raw);
                assert(raw.len() == len);
            }
            Ok((t, p + len))
        },
        None => Err(CodecError::InvalidUtf8),
    }
}


/// Appends an optional id.
pub fn put_opt_u64(out: &mut Vec<u8>, o: Option<u64>)
    ensures
        final(out)@ == old(out)@ + opt_u64_bytes(o),
{
    match o {
        Some(n) => {
            out.push(1u8);
            put_u64(out, n);
            assert(out@ =~= old(out)@ + opt_u64_bytes(o));
        },
        None => {
            out.push(0u8);
            assert(out@ =~= old(out)@ + opt_u64_bytes(o));
        },
    }
}

/// Reads an optional id at `pos`: a 0 flag byte means absent, any other byte present.
pub fn get_opt_u64(buf: &[u8], pos: usize) -> (r: Result<(Option<u64>, usize), CodecError>)
    ensures
        r matches Ok((o, p)) ==> p <= buf@.len() && pos < p,
        forall|o: Option<u64>| holds_at(buf@, pos as int, #[trigger] opt_u64_bytes(o)) ==> r == Ok::<(Option<u64>, usize), CodecError>((o, (pos + opt_u64_bytes(o).len()) as usize)),
        forall|o: Option<u64>| cut_at(buf@, pos as int, #[trigger] opt_u64_bytes(o)) ==> r is Err,
{
    proof {
        assert forall|o: Option<u64>| cut_at(buf@, pos as int, #[trigger] opt_u64_bytes(o)) implies pos >= buf@.len() || (
        buf@[pos as int] != 0 && (o matches Some(n) && cut_at(buf@, pos + 1, le_bytes(n)))) by {
            if pos < buf@.len() {
                assert(buf@.subrange(pos as int, buf@.len() as int)[0] == buf@[pos as int]);
                if let Some(n) = o {
                    lemma_cut_split(buf@, pos as int, seq![1u8], le_bytes(n));
                }
            }
        }
    }
    proof {
        assert forall|o: Option<u64>| holds_at(buf@, pos as int, #[trigger] opt_u64_bytes(o)) implies
            buf@[pos as int] == opt_u64_bytes(o)[0] && (o matches Some(n) ==> holds_at(buf@, pos + 1, le_bytes(n))) by {
            assert(buf@.subrange(pos as int, pos + opt_u64_bytes(o).len())[0] == buf@[pos as int]);
            if let Some(n) = o {
                lemma_holds_concat(buf@, pos as int, seq![1u8], le_bytes(n));
            }
        }
    }
    if pos >= buf.len() {
        return Err(CodecError::UnexpectedEnd);
    }
    if buf[pos] == 0 {
        Ok((None, pos + 1))
    } else {
        let (n, p) = get_u64(buf, pos + 1)?;
        Ok((Some(n), p))
    }
}

/// Appends a sequence of ids.
pub fn put_u64s(out: &mut Vec<u8>, v: &Vec<u64>)
    ensures
        final(out)@ == old(out)@ + u64s_bytes(v@),
{
    put_u64(out, v.len() as u64);
    let ghost start = out@;
    let mut i: usize = 0;
    while i < v.len()
        invariant
            i <= v@.len(),
            out@ == start + u64s_body(v@.subrange(0, i as int)),
        decreases v.len() - i,
    {
        put_u64(out, v[i]);
        proof {
            assert(v@.subrange(0, i + 1).drop_last() =~= v@.subrange(0, i as int));
        }
        i += 1;
        assert(out@ =~= start + u64s_body(v@.subrange(0, i as int)));
    }
    assert(v@.subrange(0, i as int) =~= v@);
    assert(out@ =~= old(out)@ + u64s_bytes(v@));
}

/// Reads a sequence of ids at `pos`.
pub fn get_u64s(buf: &[u8], pos: usize) -> (r: Result<(Vec<u64>, usize), CodecError>)
    ensures
        r matches Ok((v, p)) ==> pos < p <= buf@.len(),
        forall|s: Seq<u64>| holds_at(buf@, pos as int, #[trigger] u64s_bytes(s)) ==> (r matches Ok((v, p))
            && v@ == s && p == pos + u64s_bytes(s).len()),
        forall|s: Seq<u64>| cut_at(buf@, pos as int, #[trigger] u64s_bytes(s)) ==> r is Err,
{
    let buf_len = buf.len();
    proof {
        assert forall|s: Seq<u64>| cut_at(buf@, pos as int, #[trigger] u64s_bytes(s)) implies (cut_at(buf@, pos as int, le_bytes(s.len() as u64))
            || (holds_at(buf@, pos as int, le_bytes(s.len() as u64)) && cut_at(buf@, pos + 8, u64s_body(s)))) && s.len() <= u64::MAX by {
            lemma_cut_split(buf@, pos as int, le_bytes(s.len() as u64), u64s_body(s));
            lemma_u64s_body_len(s);
        }
        assert forall|s: Seq<u64>| holds_at(buf@, pos as int, #[trigger] u64s_bytes(s)) implies
            holds_at(buf@, pos as int, le_bytes(s.len() as u64)) && holds_at(buf@, pos + 8, u64s_body(s))
            && s.len() <= u64::MAX by {
            lemma_holds_concat(buf@, pos as int, le_bytes(s.len() as u64), u64s_body(s));
            lemma_u64s_body_len(s);
        }
    }
    let (count, mut p) = get_u64(buf, pos)?;
    let mut v: Vec<u64> = Vec::new();
    let mut i: u64 = 0;
    while i < count
        invariant
            i <= count,
            v@.len() == i,
            pos < p <= buf@.len(),
            forall|s: Seq<u64>| holds_at(buf@, pos as int, #[trigger] u64s_bytes(s)) ==> {
                &&& s.len() == count
                &&& v@ == s.subrange(0, i as int)
                &&& p == pos + 8 + u64s_body(s.subrange(0, i as int)).len()
                &&& holds_at(buf@, pos + 8, u64s_body(s))
            },
            forall|s: Seq<u64>| cut_at(buf@, pos as int, #[trigger] u64s_bytes(s)) ==> {
                &&& s.len() == count
                &&& p == pos + 8 + u64s_body(s.subrange(0, i as int)).len()
                &&& cut_at(buf@, pos + 8, u64s_body(s))
            },
        decreases count - i,
    {
        proof {
            assert forall|s: Seq<u64>| cut_at(buf@, pos as int, #[trigger] u64s_bytes(s)) implies
                (cut_at(buf@, p as int, le_bytes(s[i as int])) || holds_at(buf@, p as int, le_bytes(s[i as int])))
                && u64s_body(s.subrange(0, i + 1)) == u64s_body(s.subrange(0, i as int)) + le_bytes(s[i as int]) by {
                lemma_u64s_body_prefix(s, i as int);
                lemma_cut_step(buf@, pos + 8, u64s_body(s.subrange(0, i as int)), le_bytes(s[i as int]), u64s_body(s));
            }
            assert forall|s: Seq<u64>| holds_at(buf@, pos as int, #[trigger] u64s_bytes(s)) implies
                holds_at(buf@, p as int, le_bytes(s[i as int]))
                && p + 8 == pos + 8 + u64s_body(s.subrange(0, i + 1)).len() by {
                lemma_u64s_body_prefix(s, i as int);
                lemma_holds_prefix(buf@, pos + 8, u64s_body(s.subrange(0, i + 1)), u64s_body(s));
                lemma_holds_concat(buf@, pos + 8, u64s_body(s.subrange(0, i as int)), le_bytes(s[i as int]));
            }
        }
        let ghost p_old = p;
        let (n, q) = get_u64(buf, p)?;
        v.push(n);
        p = q;
        i += 1;
        proof {
            assert forall|s: Seq<u64>| cut_at(buf@, pos as int, #[trigger] u64s_bytes(s)) implies p == pos + 8 + u64s_body(s.subrange(0, i as int)).len() by {
                assert(holds_at(buf@, p_old as int, le_bytes(s[i - 1])));
            }
        }
        proof {
            assert forall|s: Seq<u64>| holds_at(buf@, pos as int, #[trigger] u64s_bytes(s)) implies v@ == s.subrange(0, i as int) by {
                assert(v@ =~= s.subrange(0, i as int));
            }
        }
    }
    proof {
        assert forall|s: Seq<u64>| holds_at(buf@, pos as int, #[trigger] u64s_bytes(s)) implies v@ == s && p == pos + u64s_bytes(s).len() by {
            assert(s.subrange(0, i as int) =~= s);
        }
    }
    proof {
        assert forall|s: Seq<u64>| !cut_at(buf@, pos as int, #[trigger] u64s_bytes(s)) by {
            if cut_at(buf@, pos as int, u64s_bytes(s)) {
                assert(s.subrange(0, i as int) =~= s);
            }
        }
    }
    Ok((v, p))
}

proof fn lemma_u64s_body_len(s: Seq<u64>)
    ensures
        u64s_body(s).len() == 8 * s.len(),
    decreases s.len(),
{
    if s.len() > 0 {
        lemma_u64s_body_len(s.drop_last());
    }
}

/// The encoding of a prefix is a prefix of the encoding, followed by the next id.
proof fn lemma_u64s_body_prefix(s: Seq<u64>, i: int)
    requires
        0 <= i < s.len(),
    ensures
        u64s_body(s.subrange(0, i + 1)) == u64s_body(s.subrange(0, i)) + le_bytes(s[i]),
        u64s_body(s).len() >= u64s_body(s.subrange(0, i + 1)).len(),
        u64s_body(s).subrange(0, u64s_body(s.subrange(0, i + 1)).len() as int) == u64s_body(s.subrange(0, i + 1)),
    decreases s.len() - i,
{
    assert(s.subrange(0, i + 1).drop_last() =~= s.subrange(0, i));
    if i + 1 < s.len() {
        lemma_u64s_body_prefix(s, i + 1);
        let a = u64s_body(s.subrange(0, i + 1));
        let b = u64s_body(s.subrange(0, i + 2));
        assert(b == a + le_bytes(s[i + 1]));
        assert(u64s_body(s).subrange(0, a.len() as int) =~= b.subrange(0, a.len() as int));
        assert(b.subrange(0, a.len() as int) =~= a);
    } else {
        assert(s.subrange(0, i + 1) =~= s);
        assert(u64s_body(s).subrange(0, u64s_body(s).len() as int) =~= u64s_body(s));
    }
}


proof fn lemma_texts_body_len(s: Seq<Seq<char>>)
    ensures
        texts_body(s).len() >= 8 * s.len(),
    decreases s.len(),
{
    if s.len() > 0 {
        lemma_texts_body_len(s.drop_last());
    }
}

/// The encoding of a prefix is a prefix of the encoding, followed by the next text.
proof fn lemma_texts_body_prefix(s: Seq<Seq<char>>, i: int)
    requires
        0 <= i < s.len(),
    ensures
        texts_body(s.subrange(0, i + 1)) == texts_body(s.subrange(0, i)) + text_bytes(s[i]),
        texts_body(s).len() >= texts_body(s.subrange(0, i + 1)).len(),
        texts_body(s).subrange(0, texts_body(s.subrange(0, i + 1)).len() as int) == texts_body(s.subrange(0, i + 1)),
    decreases s.len() - i,
{
    assert(s.subrange(0, i + 1).drop_last() =~= s.subrange(0, i));
    if i + 1 < s.len() {
        lemma_texts_body_prefix(s, i + 1);
        let a = texts_body(s.subrange(0, i + 1));
        let b = texts_body(s.subrange(0, i + 2));
        assert(texts_body(s).subrange(0, a.len() as int) =~= b.subrange(0, a.len() as int));
        assert(b.subrange(0, a.len() as int) =~= a);
    } else {
        assert(s.subrange(0, i + 1) =~= s);
        assert(texts_body(s).subrange(0, texts_body(s).len() as int) =~= texts_body(s));
    }
}

/// The views of a sequence of strings.
pub open spec fn strings_view(v: Seq<String>) -> Seq<Seq<char>> {
    v.map_values(|t: String| t@)
}

/// Appends a sequence of texts.
pub fn put_texts(out: &mut Vec<u8>, v: &Vec<String>)
    ensures
        final(out)@ == old(out)@ + texts_bytes(strings_view(v@)),
{
    put_u64(out, v.len() as u64);
    let ghost start = out@;
    let ghost sv = strings_view(v@);
    let mut i: usize = 0;
    while i < v.len()
        invariant
            i <= v@.len(),
            sv == strings_view(v@),
            out@ == start + texts_body(sv.subrange(0, i as int)),
        decreases v.len() - i,
    {
        put_text(out, v[i].as_str());
        proof {
            assert(sv.subrange(0, i + 1).drop_last() =~= sv.subrange(0, i as int));
        }
        i += 1;
        assert(out@ =~= start + texts_body(sv.subrange(0, i as int)));
    }
    assert(sv.subrange(0, i as int) =~= sv);
    assert(out@ =~= old(out)@ + texts_bytes(strings_view(v@)));
}

/// Reads a sequence of texts at `pos`.
pub fn get_texts(buf: &[u8], pos: usize) -> (r: Result<(Vec<String>, usize), CodecError>)
    ensures
        r matches Ok((v, p)) ==> pos < p <= buf@.len(),
        forall|s: Seq<Seq<char>>| holds_at(buf@, pos as int, #[trigger] texts_bytes(s)) ==> (r matches Ok((v, p))
            && strings_view(v@) == s && p == pos + texts_bytes(s).len()),
        forall|s: Seq<Seq<char>>| cut_at(buf@, pos as int, #[trigger] texts_bytes(s)) ==> r is Err,
{
    let buf_len = buf.len();
    proof {
        assert forall|s: Seq<Seq<char>>| cut_at(buf@, pos as int, #[trigger] texts_bytes(s)) implies (cut_at(buf@, pos as int, le_bytes(s.len() as u64))
            || (holds_at(buf@, pos as int, le_bytes(s.len() as u64)) && cut_at(buf@, pos + 8, texts_body(s)))) && s.len() <= u64::MAX by {
            lemma_cut_split(buf@, pos as int, le_bytes(s.len() as u64), texts_body(s));
            lemma_texts_body_len(s);
        }
        assert forall|s: Seq<Seq<char>>| holds_at(buf@, pos as int, #[trigger] texts_bytes(s)) implies
            holds_at(buf@, pos as int, le_bytes(s.len() as u64)) && holds_at(buf@, pos + 8, texts_body(s))
            && s.len() <= u64::MAX by {
            lemma_holds_concat(buf@, pos as int, le_bytes(s.len() as u64), texts_body(s));
            lemma_texts_body_len(s);
        }
    }
    let (count, mut p) = get_u64(buf, pos)?;
    let mut v: Vec<String> = Vec::new();
    let mut i: u64 = 0;
    while i < count
        invariant
            i <= count,
            v@.len() == i,
            pos < p <= buf@.len(),
            forall|s: Seq<Seq<char>>| holds_at(buf@, pos as int, #[trigger] texts_bytes(s)) ==> {
                &&& s.len() == count
                &&& strings_view(v@) == s.subrange(0, i as int)
                &&& p == pos + 8 + texts_body(s.subrange(0, i as int)).len()
                &&& holds_at(buf@, pos + 8, texts_body(s))
            },
            forall|s: Seq<Seq<char>>| cut_at(buf@, pos as int, #[trigger] texts_bytes(s)) ==> {
                &&& s.len() == count
                &&& p == pos + 8 + texts_body(s.subrange(0, i as int)).len()
                &&& cut_at(buf@, pos + 8, texts_body(s))
            },
        decreases count - i,
    {
        proof {
            assert forall|s: Seq<Seq<char>>| cut_at(buf@, pos as int, #[trigger] texts_bytes(s)) implies
                (cut_at(buf@, p as int, text_bytes(s[i as int])) || holds_at(buf@, p as int, text_bytes(s[i as int])))
                && texts_body(s.subrange(0, i + 1)) == texts_body(s.subrange(0, i as int)) + text_bytes(s[i as int]) by {
                lemma_texts_body_prefix(s, i as int);
                lemma_cut_step(buf@, pos + 8, texts_body(s.subrange(0, i as int)), text_bytes(s[i as int]), texts_body(s));
            }
            assert forall|s: Seq<Seq<char>>| holds_at(buf@, pos as int, #[trigger] texts_bytes(s)) implies
                holds_at(buf@, p as int, text_bytes(s[i as int]))
                && p + text_bytes(s[i as int]).len() == pos + 8 + texts_body(s.subrange(0, i + 1)).len() by {
                lemma_texts_body_prefix(s, i as int);
                lemma_holds_prefix(buf@, pos + 8, texts_body(s.subrange(0, i + 1)), texts_body(s));
                lemma_holds_concat(buf@, pos + 8, texts_body(s.subrange(0, i as int)), text_bytes(s[i as int]));
            }
        }
        let ghost p_old = p;
        let (t, q) = get_text(buf, p)?;
        proof {
            assert(q > p) by {
                assert(text_bytes(t@).len() >= 8);
            }
        }
        let ghost before = v@;
        v.push(t);
        p = q;
        i += 1;
        proof {
            assert forall|s: Seq<Seq<char>>| cut_at(buf@, pos as int, #[trigger] texts_bytes(s)) implies p == pos + 8 + texts_body(s.subrange(0, i as int)).len() by {
                assert(holds_at(buf@, p_old as int, text_bytes(s[i - 1])));
            }
        }
        proof {
            assert forall|s: Seq<Seq<char>>| holds_at(buf@, pos as int, #[trigger] texts_bytes(s)) implies strings_view(v@) == s.subrange(0, i as int) by {
                assert(strings_view(v@) =~= strings_view(before).push(v@.last()@));
                assert(strings_view(v@) =~= s.subrange(0, i as int));
            }
        }
    }
    proof {
        assert forall|s: Seq<Seq<char>>| holds_at(buf@, pos as int, #[trigger] texts_bytes(s)) implies strings_view(v@) == s && p == pos + texts_bytes(s).len() by {
            assert(s.subrange(0, i as int) =~= s);
        }
    }
    proof {
        assert forall|s: Seq<Seq<char>>| !cut_at(buf@, pos as int, #[trigger] texts_bytes(s)) by {
            if cut_at(buf@, pos as int, texts_bytes(s)) {
                assert(s.subrange(0, i as int) =~= s);
            }
        }
    }
    Ok((v, p))
}


/// Reads a position written as a 64-bit integer at `pos`.
pub fn get_usize(buf: &[u8], pos: usize) -> (r: Result<(usize, usize), CodecError>)
    ensures
        r matches Ok((n, p)) ==> p == pos + 8 && p <= buf@.len(),
        forall|n: usize| holds_at(buf@, pos as int, #[trigger] le_bytes(n as u64)) ==> r == Ok::<(usize, usize), CodecError>((n, (pos + 8) as usize)),
        forall|n: usize| cut_at(buf@, pos as int, #[trigger] le_bytes(n as u64)) ==> r is Err,
{
    let (n, p) = get_u64(buf, pos)?;
    if n > usize::MAX as u64 {
        return Err(CodecError::TooLarge);
    }
    Ok((n as usize, p))
}

} // verus!
