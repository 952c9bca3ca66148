use crate::codec::{
    get_text, get_u64, le64, lemma_le64_len, lemma_parse_seq_fails_on, lemma_parse_seq_round_trip,
    lemma_seq_bytes_part, lemma_text_round_trip, lemma_u64_round_trip, parse_seq, parse_text, parse_u64, put_text,
    put_u64, reads_back, seq_bytes, text,
};
use crate::error::KpdbError;
use vstd::prelude::*;
use vstd::utf8::*;

verus! {

broadcast use lemma_le64_len;

/// One key/value pair, as characters.
pub type Field = (Seq<char>, Seq<char>);

pub open spec fn field_bytes(f: Field) -> Seq<u8> {
    text(f.0) + text(f.1)
}

pub open spec fn field_enc() -> spec_fn(Field) -> Seq<u8> {
    |f: Field| field_bytes(f)
}

pub open spec fn parse_field(s: Seq<u8>, p: int) -> Option<(Field, int)> {
    match parse_text(s, p) {
        Some((k, q)) => match parse_text(s, q) {
            Some((v, r)) => Some(((k, v), r)),
            None => None,
        },
        None => None,
    }
}

pub open spec fn field_item() -> spec_fn(Seq<u8>, int) -> Option<(Field, int)> {
    |s: Seq<u8>, p: int| parse_field(s, p)
}

/// The encoding of a metadata block: the pair count, then each key and
/// value as framed UTF-8.
pub open spec fn metadata_bytes(f: Seq<Field>) -> Seq<u8> {
    le64(f.len() as u64) + seq_bytes(field_enc(), f)
}

/// No key occurs twice.
pub open spec fn keys_unique(f: Seq<Field>) -> bool {
    forall|i: int, j: int| 0 <= i < j < f.len() ==> #[trigger] f[i].0 != #[trigger] f[j].0
}

/// The pairs that a whole metadata block encodes; a repeated key makes
/// the block malformed.
pub open spec fn parse_metadata(s: Seq<u8>) -> Option<Seq<Field>> {
    match parse_u64(s, 0) {
        Some((n, q)) => match parse_seq(field_item(), s, q, n as nat) {
            Some((f, r)) => if r == s.len() && keys_unique(f) {
                Some(f)
            } else {
                None
            },
            None => None,
        },
        None => None,
    }
}

/// Every key and value has an encoding whose length a `u64` can hold.
pub open spec fn fields_fit(f: Seq<Field>) -> bool {
    forall|i: int|
        0 <= i < f.len() ==> encode_utf8(#[trigger] f[i].0).len() <= u64::MAX && encode_utf8(
            f[i].1,
        ).len() <= u64::MAX
}

/// The key/value pairs attached to a record.
#[derive(Debug)]
pub struct Metadata {
    pub custom_fields: Vec<(String, String)>,
}

pub open spec fn field_view(p: (String, String)) -> Field {
    (p.0@, p.1@)
}

impl View for Metadata {
    type V = Seq<Field>;

    open spec fn view(&self) -> Seq<Field> {
        self.custom_fields@.map_values(|p: (String, String)| field_view(p))
    }
}

impl Metadata {
    /// Keys are unique.
    pub open spec fn wf(&self) -> bool {
        keys_unique(self@)
    }

    pub fn has_unique_keys(&self) -> (r: bool)
        ensures
            r == keys_unique(self@),
    {
        let n = self.custom_fields.len();
        let mut j: usize = 0;
        while j < n
            invariant
                n == self@.len(),
                j <= n,
                forall|a: int, b: int| 0 <= a < b < j ==> #[trigger] self@[a].0 != #[trigger] self@[b].0,
            decreases n - j,
        {
            let mut i: usize = 0;
            while i < j
                invariant
                    n == self@.len(),
                    i <= j < n,
                    forall|a: int, b: int| 0 <= a < b < j ==> #[trigger] self@[a].0 != #[trigger] self@[b].0,
                    forall|a: int| 0 <= a < i ==> #[trigger] self@[a].0 != self@[j as int].0,
                decreases j - i,
            {
                if self.custom_fields[i].0 == self.custom_fields[j].0 {
                    assert(self@[i as int].0 == self@[j as int].0);
                    return false;
                }
                i = i + 1;
            }
            j = j + 1;
        }
        true
    }

    /// Sets the value of `key`: in place where the key is present,
    /// appended where it is not.
    pub fn insert(&mut self, key: String, value: String)
        requires
            old(self).wf(),
        ensures
            final(self).wf(),
            (exists|i: int| 0 <= i < old(self)@.len() && #[trigger] old(self)@[i].0 == key@)
                ==> exists|i: int|
                0 <= i < old(self)@.len() && #[trigger] old(self)@[i].0 == key@ && final(self)@
                    == old(self)@.update(i, (key@, value@)),
            (forall|i: int| 0 <= i < old(self)@.len() ==> #[trigger] old(self)@[i].0 != key@)
                ==> final(self)@ == old(self)@.push((key@, value@)),
    {
        let n = self.custom_fields.len();
        let mut i: usize = 0;
        while i < n
            invariant
                n == self@.len(),
                i <= n,
                self.wf(),
                *self == *old(self),
                forall|a: int| 0 <= a < i ==> #[trigger] self@[a].0 != key@,
            decreases n - i,
        {
            if self.custom_fields[i].0 == key {
                let ghost before = self@;
                self.custom_fields.set(i, (key, value));
                proof {
                    assert(self@ =~= before.update(i as int, (key@, value@)));
                    assert(before[i as int].0 == key@);
                    assert forall|a: int, b: int| 0 <= a < b < self@.len() implies #[trigger] self@[a].0
                        != #[trigger] self@[b].0 by {
                        assert(self@[a].0 == before[a].0);
                        assert(self@[b].0 == before[b].0);
                    }
                }
                return;
            }
            i = i + 1;
        }
        let ghost before = self@;
        self.custom_fields.push((key, value));
        assert(self@ =~= before.push((key@, value@)));
    }

    pub fn new() -> (r: Metadata)
        ensures
            r@ == Seq::<Field>::empty(),
            r.wf(),
    {
        let r = Metadata { custom_fields: Vec::new() };
        assert(r@ =~= Seq::<Field>::empty());
        r
    }

    pub fn serialize(&self) -> (r: Vec<u8>)
        ensures
            r@ == metadata_bytes(self@),
    {
        let mut out: Vec<u8> = Vec::new();
        put_u64(&mut out, self.custom_fields.len() as u64);
        let mut i: usize = 0;
        while i < self.custom_fields.len()
            invariant
                i <= self.custom_fields@.len(),
                out@ == le64(self@.len() as u64) + seq_bytes(field_enc(), self@.take(i as int)),
            decreases self.custom_fields@.len() - i,
        {
            let ghost before = out@;
            put_text(&mut out, &self.custom_fields[i].0);
            put_text(&mut out, &self.custom_fields[i].1);
            proof {
                let t = self@.take(i + 1);
                assert(t.drop_last() =~= self@.take(i as int));
                assert(t.last() == field_view(self.custom_fields@[i as int]));
                assert(out@ =~= le64(self@.len() as u64) + seq_bytes(field_enc(), t));
            }
            i = i + 1;
        }
        assert(self@.take(self@.len() as int) =~= self@);
        out
    }

    /// Decodes a whole metadata block; trailing or missing bytes and
    /// invalid UTF-8 are format errors.
    pub fn deserialize(data: &[u8]) -> (r: Result<Metadata, KpdbError>)
        ensures
            match r {
                Ok(m) => parse_metadata(data@) == Some(m@),
                Err(e) => parse_metadata(data@) is None && e == KpdbError::Format,
            },
    {
        let (n, mut pos) = match get_u64(data, 0) {
            Some(x) => x,
            None => return Err(KpdbError::Format),
        };
        let mut fields: Vec<(String, String)> = Vec::new();
        let mut i: u64 = 0;
        while i < n
            invariant
                i <= n,
                parse_u64(data@, 0) == Some((n, 8int)),
                parse_seq(field_item(), data@, 8, i as nat) == Some(
                    (fields@.map_values(|p: (String, String)| field_view(p)), pos as int),
                ),
            decreases n - i,
        {
            let ghost acc = fields@.map_values(|p: (String, String)| field_view(p));
            let (k, q) = match get_text(data, pos) {
                Some(x) => x,
                None => {
                    proof {
                        lemma_parse_seq_fails_on(field_item(), data@, 8, (i + 1) as nat, n as nat);
                    }
                    return Err(KpdbError::Format);
                },
            };
            let (v, r) = match get_text(data, q) {
                Some(x) => x,
                None => {
                    proof {
                        lemma_parse_seq_fails_on(field_item(), data@, 8, (i + 1) as nat, n as nat);
                    }
                    return Err(KpdbError::Format);
                },
            };
            fields.push((k, v));
            pos = r;
            i = i + 1;
            proof {
                assert(fields@.map_values(|p: (String, String)| field_view(p)) =~= acc.push(
                    (k@, v@),
                ));
            }
        }
        if pos != data.len() {
            return Err(KpdbError::Format);
        }
        let m = Metadata { custom_fields: fields };
        if !m.has_unique_keys() {
            return Err(KpdbError::Format);
        }
        Ok(m)
    }
}

pub proof fn lemma_field_reads_back(x: Field)
    requires
        encode_utf8(x.0).len() <= u64::MAX,
        encode_utf8(x.1).len() <= u64::MAX,
    ensures
        reads_back(field_item(), field_enc(), x),
{
    assert forall|t: Seq<u8>, q: int|
        0 <= q && q + field_enc()(x).len() <= t.len() && #[trigger] t.subrange(
            q,
            q + field_enc()(x).len(),
        ) == field_enc()(x) implies field_item()(t, q) == Some(
        (x, q + field_enc()(x).len()),
    ) by {
        let a = text(x.0).len() as int;
        let b = text(x.1).len() as int;
        assert(t.subrange(q, q + a) =~= t.subrange(q, q + a + b).subrange(0, a));
        assert((text(x.0) + text(x.1)).subrange(0, a) =~= text(x.0));
        lemma_text_round_trip(t, q, x.0);
        assert(t.subrange(q + a, q + a + b) =~= t.subrange(q, q + a + b).subrange(a, a + b));
        assert((text(x.0) + text(x.1)).subrange(a, a + b) =~= text(x.1));
        lemma_text_round_trip(t, q + a, x.1);
    }
}

/// A metadata block decodes to the pairs it was encoded from.
pub proof fn lemma_metadata_round_trip(f: Seq<Field>)
    requires
        fields_fit(f),
        keys_unique(f),
        f.len() <= u64::MAX,
    ensures
        parse_metadata(metadata_bytes(f)) == Some(f),
{
    let s = metadata_bytes(f);
    let body = seq_bytes(field_enc(), f);
    assert(s.subrange(0, 8) =~= le64(f.len() as u64));
    lemma_u64_round_trip(s, 0, f.len() as u64);
    assert forall|i: int| 0 <= i < f.len() implies reads_back(
        field_item(),
        field_enc(),
        #[trigger] f[i],
    ) by {
        lemma_field_reads_back(f[i]);
    }
    assert(s.subrange(8, 8 + body.len() as int) =~= body);
    lemma_parse_seq_round_trip(field_item(), field_enc(), s, 8, f);
}

/// Where a metadata block is short enough for a `u64` to measure, so is
/// each key and value in it.
pub proof fn lemma_fields_fit(f: Seq<Field>)
    requires
        metadata_bytes(f).len() <= u64::MAX,
    ensures
        fields_fit(f),
{
    assert forall|i: int| 0 <= i < f.len() implies encode_utf8(#[trigger] f[i].0).len()
        <= u64::MAX && encode_utf8(f[i].1).len() <= u64::MAX by {
        lemma_seq_bytes_part(field_enc(), f, i);
    }
}

} // verus!
