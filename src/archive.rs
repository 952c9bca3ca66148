use crate::central_directory::{EntryView, FileMetadata};
use crate::codec::{framed, lemma_framed_round_trip, lemma_le64_len, parse_framed};
use crate::error::KpdbError;
use crate::file_record::{record_bytes, FileRecord, RecordView};
use crate::header::{fresh_header, header_bytes, HEADER_PADDING_SIZE};
use crate::kpdb_reader::{
    lemma_round_trip, open_accepts, opt_view, preview_span, record_from_blocks, KPDBReader,
};
use crate::kpdb_writer::{append_error, appended, seal_error, sealed, span, KPDBWriter};
use crate::metadata::{Field, Metadata};
use vstd::prelude::*;

verus! {

/// A value's byte codec, supplied by the value's type: encode to bytes,
/// and decode them back, `None` where they are not an encoding.
pub trait Serializable: Sized {
    /// The bytes that encode this value.
    spec fn encoding(&self) -> Seq<u8>;

    /// Whether `data` decodes to a value.
    spec fn decodable(data: Seq<u8>) -> bool;

    /// Whether `data` decodes to `v`.
    spec fn decodes_to(data: Seq<u8>, v: Self) -> bool;

    fn serialize(&self) -> (r: Vec<u8>)
        ensures
            r@ == self.encoding(),
    ;

    fn deserialize(data: &[u8]) -> (r: Option<Self>)
        ensures
            r is Some <==> Self::decodable(data@),
            r matches Some(v) ==> Self::decodes_to(data@, v),
    ;
}

/// Relies on bincode::serialize (1.x, fixed-width integers, little-endian):
/// a byte vector becomes its length as a `u64`, then its bytes.
#[verifier::external_body]
fn bincode_encode_bytes(v: &Vec<u8>) -> (r: Vec<u8>)
    ensures
        r@ == framed(v@),
{
    bincode::serialize(v).unwrap()
}

/// Relies on bincode::deserialize (1.x, trailing bytes allowed): a byte
/// vector is read back from its length and bytes, and refused where they
/// are missing.
#[verifier::external_body]
fn bincode_decode_bytes(b: &[u8]) -> (r: Option<Vec<u8>>)
    ensures
        r is Some <==> parse_framed(b@, 0) is Some,
        r matches Some(v) ==> parse_framed(b@, 0) == Some((v@, 8 + v@.len() as int)),
{
    bincode::deserialize::<Vec<u8>>(b).ok()
}

impl Serializable for Vec<u8> {
    open spec fn encoding(&self) -> Seq<u8> {
        framed(self@)
    }

    open spec fn decodable(data: Seq<u8>) -> bool {
        parse_framed(data, 0) is Some
    }

    open spec fn decodes_to(data: Seq<u8>, v: Vec<u8>) -> bool {
        parse_framed(data, 0) == Some((v@, 8 + v@.len() as int))
    }

    fn serialize(&self) -> (r: Vec<u8>) {
        bincode_encode_bytes(self)
    }

    fn deserialize(data: &[u8]) -> (r: Option<Vec<u8>>) {
        bincode_decode_bytes(data)
    }
}

/// The byte-vector codec decodes an encoding back to the vector encoded,
/// and to nothing else.
pub proof fn lemma_bytes_codec_round_trip(x: Vec<u8>, y: Vec<u8>)
    requires
        x@.len() <= u64::MAX,
    ensures
        <Vec<u8> as Serializable>::decodable(x.encoding()),
        <Vec<u8> as Serializable>::decodes_to(x.encoding(), y) <==> y@ == x@,
{
    lemma_le64_len(x@.len() as u64);
    lemma_framed_round_trip(framed(x@), 0, x@);
    assert(framed(x@).subrange(0, framed(x@).len() as int) =~= framed(x@));
}

/// A record holding `data` alone: no metadata pairs, no preview.
pub open spec fn bare_record(data: Seq<u8>) -> RecordView {
    RecordView { data, metadata: Seq::<Field>::empty(), preview: None }
}

pub open spec fn entries_view(v: Seq<FileMetadata>) -> Seq<EntryView> {
    v.map_values(|m: FileMetadata| m@)
}

/// An archive bound to one side: writing or reading.
pub struct KPDB {
    pub writer: Option<KPDBWriter>,
    pub reader: Option<KPDBReader>,
}

impl KPDB {
    pub open spec fn wf(&self) -> bool {
        &&& self.writer is Some != self.reader is Some
        &&& self.writer matches Some(w) ==> w.wf() && w.header_written
        &&& self.reader matches Some(r) ==> r.central_directory.wf()
    }

    /// A writing archive whose header is already written: returns it with
    /// the bytes that open the archive file.
    pub fn new(key: Vec<u8>) -> (r: (KPDB, Vec<u8>))
        ensures
            r.0.wf(),
            r.0.writer matches Some(w) && {
                &&& w.header_written
                &&& !w.finalized
                &&& w.key@ == key@
                &&& w.central_directory@.len() == 0
                &&& w.records@.len() == 0
                &&& fresh_header(w.header)
                &&& w.image@ == r.1@
                &&& r.1@ == header_bytes(w.header) + Seq::new(
                    HEADER_PADDING_SIZE as nat,
                    |i: int| 0u8,
                )
            },
    {
        let mut writer = KPDBWriter::new(key);
        let start = match writer.write_header() {
            Ok(b) => b,
            Err(_) => Vec::new(),
        };
        (KPDB { writer: Some(writer), reader: None }, start)
    }

    /// A reading archive from its header block and directory block.
    pub fn open(header_block: &[u8], directory_block: &[u8]) -> (r: Result<KPDB, KpdbError>)
        ensures
            match r {
                Ok(k) => k.wf() && (k.reader matches Some(rd) && rd.opened_from(
                    header_block@,
                    directory_block@,
                )),
                Err(e) => !open_accepts(header_block@, directory_block@) && e == KpdbError::Format,
            },
    {
        let reader = KPDBReader::open(header_block, directory_block)?;
        Ok(KPDB { writer: None, reader: Some(reader) })
    }

    /// Appends `data`, encoded by its codec, as a record with no metadata
    /// pairs and no preview; returns the bytes to append to the file.
    pub fn write<T: Serializable>(&mut self, data: &T) -> (r: Result<Vec<u8>, KpdbError>)
        requires
            old(self).wf(),
        ensures
            final(self).wf(),
            final(self).reader == old(self).reader,
            match r {
                Ok(b) => old(self).writer matches Some(w0) && final(self).writer matches Some(w1)
                    && append_error(w0, bare_record(data.encoding())) is None && appended(
                    w0,
                    w1,
                    bare_record(data.encoding()),
                    b@,
                ),
                Err(e) => final(self).writer == old(self).writer && match old(self).writer {
                    Some(w0) => append_error(w0, bare_record(data.encoding())) == Some(e),
                    None => e == KpdbError::Mode,
                },
            },
    {
        match self.writer.take() {
            Some(mut w) => {
                let bytes = data.serialize();
                let record = FileRecord::new(bytes, Metadata::new(), None);
                proof {
                    assert(record@ =~= bare_record(data.encoding()));
                }
                let r = w.write_file_record(record);
                self.writer = Some(w);
                r
            },
            None => Err(KpdbError::Mode),
        }
    }

    /// Closes a writing archive; see `KPDBWriter::finalize`.
    pub fn finalize(&mut self) -> (r: Result<(Vec<u8>, Vec<u8>), KpdbError>)
        requires
            old(self).wf(),
        ensures
            final(self).wf(),
            final(self).reader == old(self).reader,
            match r {
                Ok((d, h)) => old(self).writer matches Some(w0) && final(self).writer matches Some(
                    w1,
                ) && seal_error(w0) is None && sealed(w0, w1, d@, h@),
                Err(e) => final(self).writer == old(self).writer && match old(self).writer {
                    Some(w0) => seal_error(w0) == Some(e),
                    None => e == KpdbError::Mode,
                },
            },
    {
        match self.writer.take() {
            Some(mut w) => {
                let r = w.finalize();
                self.writer = Some(w);
                r
            },
            None => Err(KpdbError::Mode),
        }
    }

    /// Reads record `index` from its blocks and decodes its data with the
    /// codec of `T`.
    pub fn read<T: Serializable>(
        &self,
        index: usize,
        metadata_block: &[u8],
        data_block: &[u8],
        preview_block: Option<&[u8]>,
    ) -> (r: Result<T, KpdbError>)
        ensures
            match r {
                Ok(v) => {
                    &&& self.reader is Some
                    &&& index < self.reader.unwrap().central_directory@.len()
                    &&& record_from_blocks(
                        self.reader.unwrap().central_directory@[index as int],
                        metadata_block@,
                        data_block@,
                        opt_view(preview_block),
                    ) is Some
                    &&& T::decodes_to(data_block@, v)
                },
                Err(e) => {
                    &&& (e == KpdbError::Mode) == (self.reader is None)
                    &&& (e == KpdbError::Range) == (self.reader matches Some(rd) && index
                        >= rd.central_directory@.len())
                    &&& (e == KpdbError::Format) == (self.reader matches Some(rd) && index
                        < rd.central_directory@.len() && (record_from_blocks(
                        rd.central_directory@[index as int],
                        metadata_block@,
                        data_block@,
                        opt_view(preview_block),
                    ) is None || !T::decodable(data_block@)))
                    &&& e == KpdbError::Mode || e == KpdbError::Range || e == KpdbError::Format
                },
            },
    {
        match &self.reader {
            Some(rd) => {
                match rd.read_file_record(index, metadata_block, data_block, preview_block) {
                    Ok(rec) => match T::deserialize(rec.data.as_slice()) {
                        Some(v) => Ok(v),
                        None => Err(KpdbError::Format),
                    },
                    Err(e) => Err(e),
                }
            },
            None => Err(KpdbError::Mode),
        }
    }

    /// A copy of the directory entries, on either side.
    pub fn list_files(&self) -> (r: Result<Vec<FileMetadata>, KpdbError>)
        ensures
            match r {
                Ok(v) => {
                    &&& self.reader matches Some(rd) ==> entries_view(v@)
                        == rd.central_directory@
                    &&& self.reader is None ==> (self.writer matches Some(w) && entries_view(v@)
                        == w.central_directory@)
                },
                Err(e) => e == KpdbError::Mode && self.reader is None && self.writer is None,
            },
    {
        let files = match &self.reader {
            Some(rd) => &rd.central_directory.files,
            None => match &self.writer {
                Some(w) => &w.central_directory.files,
                None => return Err(KpdbError::Mode),
            },
        };
        let mut out: Vec<FileMetadata> = Vec::new();
        let mut i: usize = 0;
        while i < files.len()
            invariant
                i <= files@.len(),
                entries_view(out@) == entries_view(files@.take(i as int)),
            decreases files@.len() - i,
        {
            let ghost prev = out@;
            let c = files[i].copy();
            out.push(c);
            proof {
                assert(entries_view(out@) =~= entries_view(prev).push(c@));
                assert(files@.take(i + 1) =~= files@.take(i as int).push(files@[i as int]));
                assert(entries_view(files@.take(i + 1)) =~= entries_view(files@.take(i as int)).push(
                    files@[i as int]@,
                ));
            }
            i = i + 1;
        }
        assert(files@.take(files@.len() as int) =~= files@);
        Ok(out)
    }
}

/// A byte vector written through the facade reads back unchanged: in a
/// finalized archive, the data block of an entry whose record holds the
/// encoding of `x` decodes to `x` and to nothing else.
pub proof fn lemma_facade_round_trip(w: KPDBWriter, i: int, x: Vec<u8>, y: Vec<u8>)
    requires
        w.wf(),
        w.finalized,
        0 <= i < w.records@.len(),
        w.records@[i] == bare_record(x.encoding()),
        x@.len() <= u64::MAX,
    ensures
        ({
            let e = w.central_directory@[i];
            let d = span(w.image@, e.file_offset, e.file_size);
            &&& <Vec<u8> as Serializable>::decodable(d)
            &&& <Vec<u8> as Serializable>::decodes_to(d, y) <==> y@ == x@
        }),
{
    lemma_round_trip(w);
    let e = w.central_directory@[i];
    assert(record_from_blocks(
        e,
        span(w.image@, e.metadata_offset, e.metadata_size),
        span(w.image@, e.file_offset, e.file_size),
        preview_span(w.image@, e),
    ) == Some(w.records@[i]));
    lemma_bytes_codec_round_trip(x, y);
}

} // verus!
