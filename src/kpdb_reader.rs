use crate::central_directory::{
    directory_bytes, lemma_directory_round_trip, parse_directory, CentralDirectory, EntryView,
    FileMetadata,
};
use crate::codec::bytes_equal;
use crate::error::KpdbError;
use crate::integrity::{calculate_crc, calculate_hmac, crc32_of, hmac_sha256_of};
use crate::file_record::{
    lemma_preview_round_trip, parse_preview, FileRecord, Preview, RecordView,
};
use crate::header::{header_bytes, lemma_header_round_trip, parse_header, Header, HEADER_SIZE};
use crate::kpdb_writer::{span, KPDBWriter};
use crate::metadata::{lemma_metadata_round_trip, parse_metadata, Metadata};
use vstd::prelude::*;
use vstd::slice::slice_to_vec;

verus! {

pub open spec fn opt_view(p: Option<&[u8]>) -> Option<Seq<u8>> {
    match p {
        Some(b) => Some(b@),
        None => None,
    }
}

/// A header block and a directory block that a reader accepts: the header
/// decodes, the directory block has the size it gives, and decodes.
pub open spec fn open_accepts(hb: Seq<u8>, db: Seq<u8>) -> bool {
    &&& parse_header(hb) is Some
    &&& db.len() == parse_header(hb).unwrap().central_directory_size
    &&& parse_directory(db) is Some
}

/// The three blocks have the sizes that entry `e` gives, and a preview
/// block is there exactly when `e` has one.
pub open spec fn blocks_fit(e: EntryView, m: Seq<u8>, d: Seq<u8>, p: Option<Seq<u8>>) -> bool {
    &&& m.len() == e.metadata_size
    &&& d.len() == e.file_size
    &&& match (e.preview, p) {
        (Some((o, z)), Some(b)) => b.len() == z,
        (None, None) => true,
        _ => false,
    }
}

/// The record that entry `e` and its three blocks stand for.
pub open spec fn record_from_blocks(e: EntryView, m: Seq<u8>, d: Seq<u8>, p: Option<Seq<u8>>) -> Option<
    RecordView,
> {
    if blocks_fit(e, m, d, p) && parse_metadata(m) is Some && (p matches Some(b) ==> parse_preview(
        b,
    ) is Some) {
        Some(
            RecordView {
                data: d,
                metadata: parse_metadata(m).unwrap(),
                preview: match p {
                    Some(b) => parse_preview(b),
                    None => None,
                },
            },
        )
    } else {
        None
    }
}

/// The bytes of `img` where entry `e` puts its preview, if it has one.
pub open spec fn preview_span(img: Seq<u8>, e: EntryView) -> Option<Seq<u8>> {
    match e.preview {
        Some((o, z)) => Some(span(img, o, z)),
        None => None,
    }
}

/// The random-access side: the header and directory of an archive,
/// decoded once. The archive's bytes stay with the caller, who reads the
/// blocks that an entry locates and hands them over.
pub struct KPDBReader {
    pub header: Header,
    pub central_directory: CentralDirectory,
}

impl KPDBReader {
    /// This reader holds what the two blocks decode to.
    pub open spec fn opened_from(&self, hb: Seq<u8>, db: Seq<u8>) -> bool {
        &&& parse_header(hb) == Some(self.header)
        &&& db.len() == self.header.central_directory_size
        &&& parse_directory(db) == Some(self.central_directory@)
    }

    /// Decodes the header block (the first `HEADER_SIZE` bytes of the
    /// archive) and the directory block that it points to.
    pub fn open(header_block: &[u8], directory_block: &[u8]) -> (r: Result<KPDBReader, KpdbError>)
        ensures
            match r {
                Ok(rd) => rd.opened_from(header_block@, directory_block@)
                    && rd.central_directory.wf(),
                Err(e) => !open_accepts(header_block@, directory_block@) && e == KpdbError::Format,
            },
    {
        let header = Header::deserialize(header_block)?;
        if directory_block.len() as u64 != header.central_directory_size {
            return Err(KpdbError::Format);
        }
        let central_directory = CentralDirectory::deserialize(directory_block)?;
        Ok(KPDBReader { header, central_directory })
    }

    /// Assembles record `index` from its metadata, data and preview blocks.
    pub fn read_file_record(
        &self,
        index: usize,
        metadata_block: &[u8],
        data_block: &[u8],
        preview_block: Option<&[u8]>,
    ) -> (r: Result<FileRecord, KpdbError>)
        ensures
            match r {
                Ok(rec) => index < self.central_directory@.len() && record_from_blocks(
                    self.central_directory@[index as int],
                    metadata_block@,
                    data_block@,
                    opt_view(preview_block),
                ) == Some(rec@),
                Err(e) => {
                    &&& (e == KpdbError::Range) == (index >= self.central_directory@.len())
                    &&& (e == KpdbError::Format) == (index < self.central_directory@.len()
                        && record_from_blocks(
                        self.central_directory@[index as int],
                        metadata_block@,
                        data_block@,
                        opt_view(preview_block),
                    ) is None)
                    &&& e == KpdbError::Range || e == KpdbError::Format
                },
            },
    {
        if index >= self.central_directory.files.len() {
            return Err(KpdbError::Range);
        }
        let entry = &self.central_directory.files[index];
        if metadata_block.len() as u64 != entry.metadata_size || data_block.len() as u64
            != entry.file_size {
            return Err(KpdbError::Format);
        }
        let metadata = match Metadata::deserialize(metadata_block) {
            Ok(m) => m,
            Err(e) => return Err(e),
        };
        let preview = match (entry.preview_offset, entry.preview_size, preview_block) {
            (Some(_), Some(z), Some(b)) => {
                if b.len() as u64 != z {
                    return Err(KpdbError::Format);
                }
                match Preview::deserialize(b) {
                    Ok(p) => Some(p),
                    Err(e) => return Err(e),
                }
            },
            (Some(_), Some(_), None) => return Err(KpdbError::Format),
            (_, _, Some(_)) => return Err(KpdbError::Format),
            (_, _, None) => None,
        };
        let data = slice_to_vec(data_block);
        Ok(FileRecord::new(data, metadata, preview))
    }
}

impl KPDBReader {
    /// Recomputes the checksum and the authentication tag (under `key`) of
    /// a record's data block and compares them with those its entry holds.
    pub fn verify_file_record(&self, index: usize, data_block: &[u8], key: &[u8]) -> (r: Result<
        (),
        KpdbError,
    >)
        ensures
            match r {
                Ok(()) => {
                    &&& index < self.central_directory@.len()
                    &&& crc32_of(data_block@) == self.central_directory@[index as int].crc
                    &&& hmac_sha256_of(key@, data_block@) == self.central_directory@[index as int].mac
                },
                Err(e) => {
                    &&& (e == KpdbError::Range) == (index >= self.central_directory@.len())
                    &&& (e == KpdbError::Mismatch) == (index < self.central_directory@.len() && !(
                    crc32_of(data_block@) == self.central_directory@[index as int].crc
                        && hmac_sha256_of(key@, data_block@)
                        == self.central_directory@[index as int].mac))
                    &&& e == KpdbError::Range || e == KpdbError::Mismatch
                },
            },
    {
        if index >= self.central_directory.files.len() {
            return Err(KpdbError::Range);
        }
        let entry = &self.central_directory.files[index];
        let crc = calculate_crc(data_block);
        let mac = calculate_hmac(data_block, key);
        if crc != entry.crc || !bytes_equal(mac.as_slice(), entry.mac.as_slice()) {
            return Err(KpdbError::Mismatch);
        }
        Ok(())
    }
}

/// Reading back a finalized archive gives what was written: its header
/// and directory blocks are accepted and decode to the writer's header
/// and directory, and the blocks that each entry locates decode to the
/// record written under it.
pub proof fn lemma_round_trip(w: KPDBWriter)
    requires
        w.wf(),
        w.finalized,
    ensures
        ({
            let img = w.image@;
            let h = w.header;
            let hb = img.subrange(0, HEADER_SIZE as int);
            let db = span(img, h.central_directory_offset, h.central_directory_size);
            &&& parse_header(img) == Some(h)
            &&& parse_header(hb) == Some(h)
            &&& h.central_directory_offset + h.central_directory_size == img.len()
            &&& open_accepts(hb, db)
            &&& parse_directory(db) == Some(w.central_directory@)
            &&& forall|i: int|
                0 <= i < w.records@.len() ==> {
                    let e = #[trigger] w.central_directory@[i];
                    record_from_blocks(
                        e,
                        span(img, e.metadata_offset, e.metadata_size),
                        span(img, e.file_offset, e.file_size),
                        preview_span(img, e),
                    ) == Some(w.records@[i]) && e.crc == crc32_of(w.records@[i].data) && e.mac
                        == hmac_sha256_of(w.key@, w.records@[i].data)
                }
        }),
{
    let img = w.image@;
    let h = w.header;
    let hb = img.subrange(0, HEADER_SIZE as int);
    lemma_header_round_trip(h, img.subrange(HEADER_SIZE as int, img.len() as int));
    assert(img =~= header_bytes(h) + img.subrange(HEADER_SIZE as int, img.len() as int));
    lemma_header_round_trip(h, Seq::empty());
    assert(hb =~= header_bytes(h) + Seq::<u8>::empty());
    let d = w.central_directory@;
    assert forall|i: int| 0 <= i < d.len() implies crate::central_directory::entry_storable(
        #[trigger] d[i],
    ) by {
        assert(crate::kpdb_writer::entry_matches(img, d[i], w.records@[i], w.key@));
    }
    lemma_directory_round_trip(d);
    assert forall|i: int| 0 <= i < w.records@.len() implies {
        let e = #[trigger] w.central_directory@[i];
        record_from_blocks(
            e,
            span(img, e.metadata_offset, e.metadata_size),
            span(img, e.file_offset, e.file_size),
            preview_span(img, e),
        ) == Some(w.records@[i]) && e.crc == crc32_of(w.records@[i].data) && e.mac
            == hmac_sha256_of(w.key@, w.records@[i].data)
    } by {
        let e = w.central_directory@[i];
        let r = w.records@[i];
        assert(crate::kpdb_writer::entry_matches(img, e, r, w.key@));
        lemma_metadata_round_trip(r.metadata);
        if let Some(p) = r.preview {
            lemma_preview_round_trip(p);
        }
    }
}

/// Opening the same blocks twice gives the same header and directory.
pub proof fn lemma_open_idempotent(a: KPDBReader, b: KPDBReader, hb: Seq<u8>, db: Seq<u8>)
    requires
        a.opened_from(hb, db),
        b.opened_from(hb, db),
    ensures
        a.header == b.header,
        a.central_directory@ == b.central_directory@,
{
}

} // verus!
