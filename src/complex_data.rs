use crate::archive::Serializable;
use crate::codec::{
    get_text, get_u32, le32, lemma_le32_len, lemma_piece, lemma_text_round_trip, lemma_u32_at,
    parse_text, put_text, put_u32, text, u32_at,
};
use vstd::utf8::*;
use vstd::prelude::*;

verus! {

/// A sample structured value with a hand-written codec: the string as its
/// length (`u64`) and UTF-8 bytes, then the integer as four
/// little-endian bytes.
#[derive(Debug, PartialEq, Eq)]
pub struct ComplexData {
    pub field1: String,
    pub field2: i32,
}

impl Serializable for ComplexData {
    open spec fn encoding(&self) -> Seq<u8> {
        text(self.field1@) + le32(self.field2 as u32)
    }

    open spec fn decodable(data: Seq<u8>) -> bool {
        match parse_text(data, 0) {
            Some((_, q)) => data.len() == q + 4,
            None => false,
        }
    }

    open spec fn decodes_to(data: Seq<u8>, v: ComplexData) -> bool {
        match parse_text(data, 0) {
            Some((s, q)) => data.len() == q + 4 && s == v.field1@ && u32_at(data, q) as i32
                == v.field2,
            None => false,
        }
    }

    fn serialize(&self) -> (r: Vec<u8>) {
        let mut out: Vec<u8> = Vec::new();
        put_text(&mut out, &self.field1);
        put_u32(&mut out, self.field2 as u32);
        assert(out@ =~= self.encoding());
        out
    }

    fn deserialize(data: &[u8]) -> (r: Option<ComplexData>) {
        let (field1, q) = match get_text(data, 0) {
            Some(x) => x,
            None => return None,
        };
        if data.len() - q != 4 {
            return None;
        }
        let (n, _) = match get_u32(data, q) {
            Some(x) => x,
            None => return None,
        };
        Some(ComplexData { field1, field2: n as i32 })
    }
}

/// The codec decodes an encoding back to the value encoded.
pub proof fn lemma_complex_data_round_trip(x: ComplexData, y: ComplexData)
    requires
        encode_utf8(x.field1@).len() <= u64::MAX,
    ensures
        ComplexData::decodable(x.encoding()),
        ComplexData::decodes_to(x.encoding(), y) <==> y.field1@ == x.field1@ && y.field2
            == x.field2,
{
    let s = x.encoding();
    let a = text(x.field1@).len() as int;
    lemma_le32_len(x.field2 as u32);
    lemma_piece(s, 0, s, 0, a);
    assert(s.subrange(0, s.len() as int) =~= s);
    assert(s.subrange(0, a) =~= text(x.field1@));
    lemma_text_round_trip(s, 0, x.field1@);
    assert(s.subrange(a, a + 4) =~= le32(x.field2 as u32));
    lemma_u32_at(s, a, x.field2 as u32);
    let v = x.field2;
    assert(((v as u32) as i32) == v) by (bit_vector);
}

} // verus!
