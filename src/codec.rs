use vstd::bytes::*;
use vstd::prelude::*;
use vstd::slice::*;
use vstd::utf8::*;

verus! {

/// Little-endian bytes of a `u64`.
pub open spec fn le64(x: u64) -> Seq<u8> {
    spec_u64_to_le_bytes(x)
}

/// Little-endian bytes of a `u32`.
pub open spec fn le32(x: u32) -> Seq<u8> {
    spec_u32_to_le_bytes(x)
}

/// A byte span preceded by its length as a little-endian `u64`.
pub open spec fn framed(b: Seq<u8>) -> Seq<u8> {
    le64(b.len() as u64) + b
}

/// A string stored as its UTF-8 bytes, framed.
pub open spec fn text(c: Seq<char>) -> Seq<u8> {
    framed(encode_utf8(c))
}

/// The `u64` whose little-endian bytes start at `p`.
pub open spec fn u64_at(s: Seq<u8>, p: int) -> u64 {
    spec_u64_from_le_bytes(s.subrange(p, p + 8))
}

/// The `u32` whose little-endian bytes start at `p`.
pub open spec fn u32_at(s: Seq<u8>, p: int) -> u32 {
    spec_u32_from_le_bytes(s.subrange(p, p + 4))
}

/// Where `s` holds `whole` at `q`, it holds each piece of `whole` at the
/// matching place.
pub proof fn lemma_piece(s: Seq<u8>, q: int, whole: Seq<u8>, i: int, j: int)
    requires
        0 <= q,
        q + whole.len() <= s.len(),
        s.subrange(q, q + whole.len()) == whole,
        0 <= i <= j <= whole.len(),
    ensures
        s.subrange(q + i, q + j) == whole.subrange(i, j),
{
    assert(s.subrange(q + i, q + j) =~= s.subrange(q, q + whole.len()).subrange(i, j));
}

pub proof fn lemma_u64_at(s: Seq<u8>, p: int, x: u64)
    requires
        s.subrange(p, p + 8) == le64(x),
    ensures
        u64_at(s, p) == x,
{
    lemma_auto_spec_u64_to_from_le_bytes();
}

pub proof fn lemma_u32_at(s: Seq<u8>, p: int, x: u32)
    requires
        s.subrange(p, p + 4) == le32(x),
    ensures
        u32_at(s, p) == x,
{
    lemma_auto_spec_u32_to_from_le_bytes();
    assert(spec_u32_to_le_bytes(x).len() == 4);
}

pub open spec fn parse_u8(s: Seq<u8>, p: int) -> Option<(u8, int)> {
    if 0 <= p && p + 1 <= s.len() {
        Some((s[p], p + 1))
    } else {
        None
    }
}

pub open spec fn parse_u32(s: Seq<u8>, p: int) -> Option<(u32, int)> {
    if 0 <= p && p + 4 <= s.len() {
        Some((spec_u32_from_le_bytes(s.subrange(p, p + 4)), p + 4))
    } else {
        None
    }
}

pub open spec fn parse_u64(s: Seq<u8>, p: int) -> Option<(u64, int)> {
    if 0 <= p && p + 8 <= s.len() {
        Some((spec_u64_from_le_bytes(s.subrange(p, p + 8)), p + 8))
    } else {
        None
    }
}

pub open spec fn parse_framed(s: Seq<u8>, p: int) -> Option<(Seq<u8>, int)> {
    match parse_u64(s, p) {
        Some((n, q)) => if q + n <= s.len() {
            Some((s.subrange(q, q + n), q + n))
        } else {
            None
        },
        None => None,
    }
}

pub open spec fn parse_text(s: Seq<u8>, p: int) -> Option<(Seq<char>, int)> {
    match parse_framed(s, p) {
        Some((b, q)) => if valid_utf8(b) {
            Some((decode_utf8(b), q))
        } else {
            None
        },
        None => None,
    }
}

pub broadcast proof fn lemma_le64_len(x: u64)
    ensures
        #[trigger] le64(x).len() == 8,
{
    lemma_auto_spec_u64_to_from_le_bytes();
}

pub broadcast proof fn lemma_le32_len(x: u32)
    ensures
        #[trigger] le32(x).len() == 4,
{
    lemma_auto_spec_u32_to_from_le_bytes();
}

pub proof fn lemma_u64_round_trip(s: Seq<u8>, p: int, x: u64)
    requires
        0 <= p,
        p + 8 <= s.len(),
        s.subrange(p, p + 8) == le64(x),
    ensures
        parse_u64(s, p) == Some((x, p + 8)),
{
    lemma_auto_spec_u64_to_from_le_bytes();
}

pub proof fn lemma_framed_round_trip(s: Seq<u8>, p: int, b: Seq<u8>)
    requires
        0 <= p,
        b.len() <= u64::MAX,
        p + framed(b).len() <= s.len(),
        s.subrange(p, p + framed(b).len()) == framed(b),
    ensures
        parse_framed(s, p) == Some((b, p + framed(b).len())),
{
    lemma_auto_spec_u64_to_from_le_bytes();
    let n = framed(b).len();
    assert(s.subrange(p, p + 8) =~= s.subrange(p, p + n).subrange(0, 8));
    assert(framed(b).subrange(0, 8) =~= le64(b.len() as u64));
    lemma_u64_round_trip(s, p, b.len() as u64);
    assert(s.subrange(p + 8, p + n) =~= s.subrange(p, p + n).subrange(8, n as int));
    assert(framed(b).subrange(8, n as int) =~= b);
}

pub proof fn lemma_text_round_trip(s: Seq<u8>, p: int, c: Seq<char>)
    requires
        0 <= p,
        encode_utf8(c).len() <= u64::MAX,
        p + text(c).len() <= s.len(),
        s.subrange(p, p + text(c).len()) == text(c),
    ensures
        parse_text(s, p) == Some((c, p + text(c).len())),
{
    lemma_framed_round_trip(s, p, encode_utf8(c));
    encode_utf8_valid_utf8(c);
    encode_utf8_decode_utf8(c);
}

/// Relies on String::from_utf8: it accepts exactly the valid UTF-8 byte
/// strings, and the string it returns holds the characters they encode.
#[verifier::external_body]
pub(crate) fn string_from_utf8(b: Vec<u8>) -> (r: Option<String>)
    ensures
        r is Some <==> valid_utf8(b@),
        r matches Some(t) ==> t@ == decode_utf8(b@),
{
    String::from_utf8(b).ok()
}

pub fn put_u8(out: &mut Vec<u8>, x: u8)
    ensures
        final(out)@ == old(out)@.push(x),
{
    out.push(x);
}

pub fn put_u32(out: &mut Vec<u8>, x: u32)
    ensures
        final(out)@ == old(out)@ + le32(x),
{
    let mut b = u32_to_le_bytes(x);
    out.append(&mut b);
}

pub fn put_u64(out: &mut Vec<u8>, x: u64)
    ensures
        final(out)@ == old(out)@ + le64(x),
{
    let mut b = u64_to_le_bytes(x);
    out.append(&mut b);
}

pub fn put_framed(out: &mut Vec<u8>, b: &[u8])
    ensures
        final(out)@ == old(out)@ + framed(b@),
{
    put_u64(out, b.len() as u64);
    out.extend_from_slice(b);
    assert(final(out)@ =~= old(out)@ + framed(b@));
}

pub fn put_text(out: &mut Vec<u8>, t: &String)
    ensures
        final(out)@ == old(out)@ + text(t@),
{
    put_framed(out, t.as_str().as_bytes());
}

pub fn get_u8(s: &[u8], p: usize) -> (r: Option<(u8, usize)>)
    ensures
        match r {
            Some((v, q)) => parse_u8(s@, p as int) == Some((v, q as int)),
            None => parse_u8(s@, p as int) is None,
        },
{
    if p < s.len() {
        Some((s[p], p + 1))
    } else {
        None
    }
}

pub fn get_u32(s: &[u8], p: usize) -> (r: Option<(u32, usize)>)
    ensures
        match r {
            Some((v, q)) => parse_u32(s@, p as int) == Some((v, q as int)),
            None => parse_u32(s@, p as int) is None,
        },
{
    if p <= s.len() && s.len() - p >= 4 {
        let v = u32_from_le_bytes(slice_subrange(s, p, p + 4));
        Some((v, p + 4))
    } else {
        None
    }
}

pub fn get_u64(s: &[u8], p: usize) -> (r: Option<(u64, usize)>)
    ensures
        match r {
            Some((v, q)) => parse_u64(s@, p as int) == Some((v, q as int)),
            None => parse_u64(s@, p as int) is None,
        },
{
    if p <= s.len() && s.len() - p >= 8 {
        let v = u64_from_le_bytes(slice_subrange(s, p, p + 8));
        Some((v, p + 8))
    } else {
        None
    }
}

pub fn get_framed(s: &[u8], p: usize) -> (r: Option<(Vec<u8>, usize)>)
    ensures
        match r {
            Some((v, q)) => parse_framed(s@, p as int) == Some((v@, q as int)),
            None => parse_framed(s@, p as int) is None,
        },
{
    match get_u64(s, p) {
        Some((n, q)) => {
            if n <= (s.len() - q) as u64 {
                let v = slice_to_vec(slice_subrange(s, q, q + n as usize));
                Some((v, q + n as usize))
            } else {
                None
            }
        },
        None => None,
    }
}

pub fn get_text(s: &[u8], p: usize) -> (r: Option<(String, usize)>)
    ensures
        match r {
            Some((v, q)) => parse_text(s@, p as int) == Some((v@, q as int)),
            None => parse_text(s@, p as int) is None,
        },
{
    match get_framed(s, p) {
        Some((b, q)) => match string_from_utf8(b) {
            Some(t) => Some((t, q)),
            None => None,
        },
        None => None,
    }
}

/// The encodings of the items of `f`, back to back.
pub open spec fn seq_bytes<T>(enc: spec_fn(T) -> Seq<u8>, f: Seq<T>) -> Seq<u8>
    decreases f.len(),
{
    if f.len() == 0 {
        Seq::empty()
    } else {
        seq_bytes(enc, f.drop_last()) + enc(f.last())
    }
}

/// `n` items read back to back from `p` on.
pub open spec fn parse_seq<T>(
    item: spec_fn(Seq<u8>, int) -> Option<(T, int)>,
    s: Seq<u8>,
    p: int,
    n: nat,
) -> Option<(Seq<T>, int)>
    decreases n,
{
    if n == 0 {
        Some((Seq::empty(), p))
    } else {
        match parse_seq(item, s, p, (n - 1) as nat) {
            Some((acc, q)) => match item(s, q) {
                Some((x, r)) => Some((acc.push(x), r)),
                None => None,
            },
            None => None,
        }
    }
}

/// Once a run of items fails to read, every longer run fails too.
pub proof fn lemma_parse_seq_fails_on<T>(
    item: spec_fn(Seq<u8>, int) -> Option<(T, int)>,
    s: Seq<u8>,
    p: int,
    m: nat,
    n: nat,
)
    requires
        m <= n,
        parse_seq(item, s, p, m) is None,
    ensures
        parse_seq(item, s, p, n) is None,
    decreases n - m,
{
    if m < n {
        lemma_parse_seq_fails_on(item, s, p, m, (n - 1) as nat);
    }
}

/// `item` reads back every encoding of `x`, wherever it stands.
pub open spec fn reads_back<T>(
    item: spec_fn(Seq<u8>, int) -> Option<(T, int)>,
    enc: spec_fn(T) -> Seq<u8>,
    x: T,
) -> bool {
    forall|t: Seq<u8>, q: int|
        0 <= q && q + enc(x).len() <= t.len() && #[trigger] t.subrange(q, q + enc(x).len())
            == enc(x) ==> item(t, q) == Some((x, q + enc(x).len()))
}

pub proof fn lemma_parse_seq_round_trip<T>(
    item: spec_fn(Seq<u8>, int) -> Option<(T, int)>,
    enc: spec_fn(T) -> Seq<u8>,
    s: Seq<u8>,
    p: int,
    f: Seq<T>,
)
    requires
        forall|i: int| 0 <= i < f.len() ==> reads_back(item, enc, #[trigger] f[i]),
        0 <= p,
        p + seq_bytes(enc, f).len() <= s.len(),
        s.subrange(p, p + seq_bytes(enc, f).len()) == seq_bytes(enc, f),
    ensures
        parse_seq(item, s, p, f.len()) == Some((f, p + seq_bytes(enc, f).len())),
    decreases f.len(),
{
    if f.len() > 0 {
        let g = f.drop_last();
        let x = f.last();
        let a = seq_bytes(enc, g).len() as int;
        let b = enc(x).len() as int;
        assert(seq_bytes(enc, f) == seq_bytes(enc, g) + enc(x));
        assert(s.subrange(p, p + a) =~= s.subrange(p, p + a + b).subrange(0, a));
        assert((seq_bytes(enc, g) + enc(x)).subrange(0, a) =~= seq_bytes(enc, g));
        assert forall|i: int| 0 <= i < g.len() implies reads_back(item, enc, #[trigger] g[i]) by {
            assert(g[i] == f[i]);
        }
        lemma_parse_seq_round_trip(item, enc, s, p, g);
        assert(s.subrange(p + a, p + a + b) =~= s.subrange(p, p + a + b).subrange(a, a + b));
        assert((seq_bytes(enc, g) + enc(x)).subrange(a, a + b) =~= enc(x));
        assert(reads_back(item, enc, f[f.len() - 1]));
        assert(g.push(x) =~= f);
    } else {
        assert(f =~= Seq::<T>::empty());
    }
}

/// Each item's encoding is no longer than the encoding of the whole run.
pub proof fn lemma_seq_bytes_part<T>(enc: spec_fn(T) -> Seq<u8>, f: Seq<T>, i: int)
    requires
        0 <= i < f.len(),
    ensures
        enc(f[i]).len() <= seq_bytes(enc, f).len(),
    decreases f.len(),
{
    if i < f.len() - 1 {
        lemma_seq_bytes_part(enc, f.drop_last(), i);
    }
}

pub fn bytes_equal(a: &[u8], b: &[u8]) -> (r: bool)
    ensures
        r == (a@ == b@),
{
    if a.len() != b.len() {
        return false;
    }
    let mut i: usize = 0;
    while i < a.len()
        invariant
            a@.len() == b@.len(),
            i <= a@.len(),
            forall|j: int| 0 <= j < i ==> a@[j] == b@[j],
        decreases a@.len() - i,
    {
        if a[i] != b[i] {
            return false;
        }
        i = i + 1;
    }
    assert(a@ =~= b@);
    true
}

} // verus!
