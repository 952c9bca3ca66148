use crate::codec::{
    framed, get_framed, get_text, lemma_framed_round_trip, lemma_le64_len, lemma_text_round_trip,
    parse_framed, parse_text, put_framed, put_text, text,
};
use crate::error::KpdbError;
use crate::metadata::{metadata_bytes, Field, Metadata};
use vstd::prelude::*;
use vstd::utf8::*;

verus! {

broadcast use lemma_le64_len;

/// A small secondary representation of a record, with its mime type.
#[derive(Debug)]
pub struct Preview {
    pub mime_type: String,
    pub data: Vec<u8>,
}

/// What a preview holds: its mime type and its bytes.
pub type PreviewView = (Seq<char>, Seq<u8>);

impl View for Preview {
    type V = PreviewView;

    open spec fn view(&self) -> PreviewView {
        (self.mime_type@, self.data@)
    }
}

/// The encoding of a preview block: the mime type as framed UTF-8, then
/// the framed bytes.
pub open spec fn preview_bytes(p: PreviewView) -> Seq<u8> {
    text(p.0) + framed(p.1)
}

/// The preview that a whole preview block encodes.
pub open spec fn parse_preview(s: Seq<u8>) -> Option<PreviewView> {
    match parse_text(s, 0) {
        Some((m, q)) => match parse_framed(s, q) {
            Some((d, r)) => if r == s.len() {
                Some((m, d))
            } else {
                None
            },
            None => None,
        },
        None => None,
    }
}

impl Preview {
    pub fn new(mime_type: String, data: Vec<u8>) -> (r: Preview)
        ensures
            r.mime_type@ == mime_type@,
            r.data@ == data@,
    {
        Preview { mime_type, data }
    }

    pub fn serialize(&self) -> (r: Vec<u8>)
        ensures
            r@ == preview_bytes(self@),
    {
        let mut out: Vec<u8> = Vec::new();
        put_text(&mut out, &self.mime_type);
        put_framed(&mut out, self.data.as_slice());
        assert(out@ =~= preview_bytes(self@));
        out
    }

    /// Decodes a whole preview block.
    pub fn deserialize(data: &[u8]) -> (r: Result<Preview, KpdbError>)
        ensures
            match r {
                Ok(p) => parse_preview(data@) == Some(p@),
                Err(e) => parse_preview(data@) is None && e == KpdbError::Format,
            },
    {
        let (mime_type, q) = match get_text(data, 0) {
            Some(x) => x,
            None => return Err(KpdbError::Format),
        };
        let (bytes, r) = match get_framed(data, q) {
            Some(x) => x,
            None => return Err(KpdbError::Format),
        };
        if r != data.len() {
            return Err(KpdbError::Format);
        }
        Ok(Preview { mime_type, data: bytes })
    }
}

/// A preview block decodes to the preview it was encoded from.
pub proof fn lemma_preview_round_trip(p: PreviewView)
    requires
        encode_utf8(p.0).len() <= u64::MAX,
        p.1.len() <= u64::MAX,
    ensures
        parse_preview(preview_bytes(p)) == Some(p),
{
    let s = preview_bytes(p);
    let a = text(p.0).len() as int;
    let b = framed(p.1).len() as int;
    assert(s.subrange(0, a) =~= text(p.0));
    lemma_text_round_trip(s, 0, p.0);
    assert(s.subrange(a, a + b) =~= framed(p.1));
    lemma_framed_round_trip(s, a, p.1);
}

/// What a record holds: its data, its metadata pairs and its preview.
pub struct RecordView {
    pub data: Seq<u8>,
    pub metadata: Seq<Field>,
    pub preview: Option<PreviewView>,
}

pub open spec fn preview_block(p: Option<PreviewView>) -> Seq<u8> {
    match p {
        Some(v) => preview_bytes(v),
        None => Seq::empty(),
    }
}

/// The bytes a record adds to the archive: its metadata block, its data,
/// then its preview block if it has one.
pub open spec fn record_bytes(r: RecordView) -> Seq<u8> {
    metadata_bytes(r.metadata) + r.data + preview_block(r.preview)
}

/// A record as handed to the writer or returned by the reader.
#[derive(Debug)]
pub struct FileRecord {
    pub data: Vec<u8>,
    pub metadata: Metadata,
    pub preview: Option<Preview>,
}

impl View for FileRecord {
    type V = RecordView;

    open spec fn view(&self) -> RecordView {
        RecordView {
            data: self.data@,
            metadata: self.metadata@,
            preview: match self.preview {
                Some(p) => Some(p@),
                None => None,
            },
        }
    }
}

impl FileRecord {
    pub fn new(data: Vec<u8>, metadata: Metadata, preview: Option<Preview>) -> (r: FileRecord)
        ensures
            r@ == (RecordView {
                data: data@,
                metadata: metadata@,
                preview: match preview {
                    Some(p) => Some(p@),
                    None => None,
                },
            }),
    {
        FileRecord { data, metadata, preview }
    }
}

} // verus!
