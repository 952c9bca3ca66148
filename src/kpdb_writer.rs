use crate::central_directory::{
    directory_bytes, entry_storable, CentralDirectory, EntryView, FileMetadata, TAG_SIZE,
};
use crate::codec::string_from_utf8;
use crate::error::KpdbError;
use crate::file_record::{preview_block, preview_bytes, record_bytes, FileRecord, RecordView};
use crate::header::{
    fresh_header, header_bytes, magic, Header, HEADER_PADDING_SIZE, HEADER_SIZE, VERSION_MAJOR,
};
use crate::integrity::{calculate_crc, calculate_hmac, crc32_of, hmac_sha256_of};
use crate::metadata::{fields_fit, keys_unique, lemma_fields_fit, metadata_bytes};
use vstd::prelude::*;
use vstd::utf8::*;

verus! {

/// The bytes of `s` from `off`, `size` of them.
pub open spec fn span(s: Seq<u8>, off: u64, size: u64) -> Seq<u8> {
    s.subrange(off as int, off + size)
}

/// Entry `e` of the directory locates record `r` in the archive bytes
/// `img`, and carries its tags under `key`.
pub open spec fn entry_matches(img: Seq<u8>, e: EntryView, r: RecordView, key: Seq<u8>) -> bool {
    &&& HEADER_SIZE <= e.metadata_offset
    &&& e.metadata_offset + e.metadata_size <= img.len()
    &&& span(img, e.metadata_offset, e.metadata_size) == metadata_bytes(r.metadata)
    &&& fields_fit(r.metadata)
    &&& keys_unique(r.metadata)
    &&& r.metadata.len() <= u64::MAX
    &&& HEADER_SIZE <= e.file_offset
    &&& e.file_offset + e.file_size <= img.len()
    &&& span(img, e.file_offset, e.file_size) == r.data
    &&& e.crc == crc32_of(r.data)
    &&& e.mac == hmac_sha256_of(key, r.data)
    &&& entry_storable(e)
    &&& match (e.preview, r.preview) {
        (Some((o, z)), Some(p)) => {
            &&& HEADER_SIZE <= o
            &&& o + z <= img.len()
            &&& span(img, o, z) == preview_bytes(p)
            &&& encode_utf8(p.0).len() <= u64::MAX
            &&& p.1.len() <= u64::MAX
        },
        (None, None) => true,
        _ => false,
    }
}

/// Where the last block of the record that `e` locates ends.
pub open spec fn record_end(e: EntryView) -> int {
    match e.preview {
        Some((o, z)) => o + z,
        None => e.file_offset + e.file_size,
    }
}

/// Each record's blocks lie before those of every later record.
pub open spec fn entries_ordered(d: Seq<EntryView>) -> bool {
    forall|i: int, j: int|
        0 <= i < j < d.len() ==> record_end(#[trigger] d[i]) <= (#[trigger] d[j]).metadata_offset
}

pub proof fn lemma_span_extend(img: Seq<u8>, more: Seq<u8>, off: u64, size: u64)
    requires
        off + size <= img.len(),
    ensures
        span(img + more, off, size) == span(img, off, size),
{
    assert(span(img + more, off, size) =~= span(img, off, size));
}

pub proof fn lemma_span_new_prefix(img: Seq<u8>, pre: Seq<u8>, more: Seq<u8>, off: u64, size: u64)
    requires
        pre.len() == HEADER_SIZE,
        HEADER_SIZE <= off,
        off + size <= img.len(),
    ensures
        span(pre + img.subrange(HEADER_SIZE as int, img.len() as int) + more, off, size) == span(
            img,
            off,
            size,
        ),
{
    assert(span(pre + img.subrange(HEADER_SIZE as int, img.len() as int) + more, off, size)
        =~= span(img, off, size));
}

/// The decimal digits of `n`, as ASCII bytes.
pub open spec fn decimal_digits(n: nat) -> Seq<u8>
    decreases n,
{
    if n < 10 {
        seq![(48 + n) as u8]
    } else {
        decimal_digits(n / 10).push((48 + n % 10) as u8)
    }
}

/// The synthetic name of record `i`, as bytes: "file_" then `i` in decimal.
pub open spec fn record_name_bytes(i: nat) -> Seq<u8> {
    seq![102u8, 105u8, 108u8, 101u8, 95u8] + decimal_digits(i)
}

/// The synthetic name of record `i`: "file_" then `i` in decimal.
pub open spec fn record_name_of(i: nat) -> Seq<char> {
    record_name_bytes(i).map_values(|b: u8| b as char)
}

proof fn lemma_decimal_digits_ascii(n: nat)
    ensures
        forall|k: int|
            0 <= k < decimal_digits(n).len() ==> 48 <= #[trigger] decimal_digits(n)[k] < 58,
    decreases n,
{
    if n >= 10 {
        lemma_decimal_digits_ascii(n / 10);
        let prev = decimal_digits(n / 10);
        assert(n % 10 < 10);
        assert forall|k: int| 0 <= k < decimal_digits(n).len() implies 48
            <= #[trigger] decimal_digits(n)[k] < 58 by {
            if k < prev.len() {
                assert(decimal_digits(n)[k] == prev[k]);
            }
        }
    }
}

fn push_decimal(out: &mut Vec<u8>, n: u64)
    ensures
        final(out)@ == old(out)@ + decimal_digits(n as nat),
    decreases n,
{
    if n >= 10 {
        push_decimal(out, n / 10);
    }
    out.push(48u8 + (n % 10) as u8);
    assert(final(out)@ =~= old(out)@ + decimal_digits(n as nat));
}

fn record_name(index: usize) -> (r: String)
    ensures
        r@ == record_name_of(index as nat),
{
    let mut bytes: Vec<u8> = vec![102u8, 105u8, 108u8, 101u8, 95u8];
    push_decimal(&mut bytes, index as u64);
    let ghost chars = record_name_of(index as nat);
    proof {
        let nb = record_name_bytes(index as nat);
        assert(bytes@ =~= nb);
        lemma_decimal_digits_ascii(index as nat);
        assert forall|k: int| 0 <= k < nb.len() implies nb[k] < 128 by {
            if k >= 5 {
                assert(nb[k] == decimal_digits(index as nat)[k - 5]);
            }
        }
        assert(is_ascii_chars(chars));
        is_ascii_chars_encode_utf8(chars);
        assert(encode_utf8(chars) =~= nb);
        encode_utf8_valid_utf8(chars);
        encode_utf8_decode_utf8(chars);
    }
    match string_from_utf8(bytes) {
        Some(t) => t,
        None => String::new(),
    }
}

/// The sequential appender. It does no I/O itself: each step returns the
/// bytes to append to the temporary file, and `image` is what that file
/// then holds.
pub struct KPDBWriter {
    pub header: Header,
    pub central_directory: CentralDirectory,
    pub current_offset: u64,
    pub key: Vec<u8>,
    pub header_written: bool,
    pub finalized: bool,
    pub image: Ghost<Seq<u8>>,
    pub records: Ghost<Seq<RecordView>>,
}

/// `w1` is `w0` after appending record `r`, whose bytes are `b`: the
/// file grows by `b`, and the directory by an entry that locates the
/// record's blocks, carries its tags, and names it by its index.
pub open spec fn appended(w0: KPDBWriter, w1: KPDBWriter, r: RecordView, b: Seq<u8>) -> bool {
    let e = w1.central_directory@.last();
    let m = metadata_bytes(r.metadata).len();
    &&& w0.header_written && !w0.finalized
    &&& keys_unique(r.metadata)
    &&& b == record_bytes(r)
    &&& w1.image@ == w0.image@ + b
    &&& w1.current_offset == w0.current_offset + b.len()
    &&& w1.records@ == w0.records@.push(r)
    &&& w1.central_directory@.len() == w0.central_directory@.len() + 1
    &&& w1.central_directory@.drop_last() == w0.central_directory@
    &&& e.name == record_name_of(w0.central_directory@.len())
    &&& e.metadata_offset == w0.current_offset
    &&& e.metadata_size == m
    &&& e.file_offset == w0.current_offset + m
    &&& e.file_size == r.data.len()
    &&& e.crc == crc32_of(r.data)
    &&& e.mac == hmac_sha256_of(w0.key@, r.data)
    &&& e.preview is Some == r.preview is Some
    &&& e.preview matches Some((o, z)) ==> o == w0.current_offset + m + r.data.len() && z
        == preview_block(r.preview).len()
}

/// `w1` is `w0` closed: `d` is the encoded directory, appended at the
/// end, and `h` the final header, written over the first bytes.
pub open spec fn sealed(w0: KPDBWriter, w1: KPDBWriter, d: Seq<u8>, h: Seq<u8>) -> bool {
    &&& w0.header_written && !w0.finalized
    &&& w1.finalized
    &&& d == directory_bytes(w0.central_directory@)
    &&& w1.central_directory@ == w0.central_directory@
    &&& w1.records == w0.records
    &&& w1.header.central_directory_offset == w0.current_offset
    &&& w1.header.central_directory_size == d.len()
    &&& w1.header.timestamp == w0.header.timestamp
    &&& w1.header.version == w0.header.version
    &&& h == header_bytes(w1.header)
    &&& w1.image@ == h + w0.image@.subrange(HEADER_SIZE as int, w0.image@.len() as int) + d
}

/// Why appending record `r` to `w` fails, if it does.
pub open spec fn append_error(w: KPDBWriter, r: RecordView) -> Option<KpdbError> {
    if !w.header_written || w.finalized {
        Some(KpdbError::Usage)
    } else if !keys_unique(r.metadata) {
        Some(KpdbError::Format)
    } else if w.current_offset + record_bytes(r).len() > u64::MAX {
        Some(KpdbError::Overflow)
    } else {
        None
    }
}

/// Why closing `w` fails, if it does.
pub open spec fn seal_error(w: KPDBWriter) -> Option<KpdbError> {
    if !w.header_written || w.finalized {
        Some(KpdbError::Usage)
    } else if w.current_offset + directory_bytes(w.central_directory@).len() > u64::MAX {
        Some(KpdbError::Overflow)
    } else {
        None
    }
}

impl KPDBWriter {
    pub open spec fn wf(&self) -> bool {
        &&& self.central_directory.wf()
        &&& self.image@.len() == self.current_offset
        &&& self.header.padding_size == HEADER_PADDING_SIZE
        &&& self.header.magic_number@ == magic()
        &&& self.header.version.major == VERSION_MAJOR
        &&& self.central_directory@.len() == self.records@.len()
        &&& self.records@.len() <= u64::MAX
        &&& entries_ordered(self.central_directory@)
        &&& !self.header_written ==> {
            &&& self.image@.len() == 0
            &&& self.records@.len() == 0
            &&& !self.finalized
        }
        &&& self.header_written ==> {
            &&& HEADER_SIZE + HEADER_PADDING_SIZE <= self.image@.len()
            &&& self.image@.subrange(0, HEADER_SIZE as int) == header_bytes(self.header)
        }
        &&& self.finalized ==> {
            &&& self.header.central_directory_offset + self.header.central_directory_size
                == self.image@.len()
            &&& span(
                self.image@,
                self.header.central_directory_offset,
                self.header.central_directory_size,
            ) == directory_bytes(self.central_directory@)
        }
        &&& forall|i: int|
            0 <= i < self.records@.len() ==> entry_matches(
                self.image@,
                #[trigger] self.central_directory@[i],
                self.records@[i],
                self.key@,
            )
    }

    /// A writer with a fresh header, an empty directory and nothing
    /// written yet; `key` authenticates the records.
    pub fn new(key: Vec<u8>) -> (r: KPDBWriter)
        ensures
            r.wf(),
            r.key@ == key@,
            !r.header_written,
            !r.finalized,
            r.current_offset == 0,
            r.central_directory@.len() == 0,
            fresh_header(r.header),
    {
        KPDBWriter {
            header: Header::new(),
            central_directory: CentralDirectory::new(),
            current_offset: 0,
            key,
            header_written: false,
            finalized: false,
            image: Ghost(Seq::empty()),
            records: Ghost(Seq::empty()),
        }
    }

    /// The header followed by its zero-filled padding: the bytes that open
    /// the archive. Allowed once, before any record.
    pub fn write_header(&mut self) -> (r: Result<Vec<u8>, KpdbError>)
        requires
            old(self).wf(),
        ensures
            final(self).wf(),
            match r {
                Ok(b) => {
                    &&& !old(self).header_written
                    &&& b@ == header_bytes(old(self).header) + Seq::new(
                        HEADER_PADDING_SIZE as nat,
                        |i: int| 0u8,
                    )
                    &&& final(self).header_written
                    &&& final(self).image@ == b@
                    &&& final(self).current_offset == b@.len()
                    &&& final(self).header == old(self).header
                    &&& final(self).central_directory@ == old(self).central_directory@
                    &&& final(self).key == old(self).key
                    &&& !final(self).finalized
                },
                Err(e) => {
                    &&& old(self).header_written
                    &&& e == KpdbError::Usage
                    &&& *final(self) == *old(self)
                },
            },
    {
        if self.header_written {
            return Err(KpdbError::Usage);
        }
        let mut out = self.header.serialize();
        let mut i: u64 = 0;
        while i < self.header.padding_size
            invariant
                i <= self.header.padding_size,
                self.header.padding_size == HEADER_PADDING_SIZE,
                out@ == header_bytes(self.header) + Seq::new(i as nat, |j: int| 0u8),
            decreases self.header.padding_size - i,
        {
            out.push(0u8);
            i = i + 1;
            assert(out@ =~= header_bytes(self.header) + Seq::new(i as nat, |j: int| 0u8));
        }
        self.header_written = true;
        self.current_offset = out.len() as u64;
        self.image = Ghost(out@);
        assert(out@.subrange(0, HEADER_SIZE as int) =~= header_bytes(self.header));
        Ok(out)
    }

    /// Appends a record: its metadata block, its data, then its preview
    /// block if any. The directory gains an entry with their places and
    /// the data's checksum and authentication tag.
    pub fn write_file_record(&mut self, record: FileRecord) -> (r: Result<Vec<u8>, KpdbError>)
        requires
            old(self).wf(),
        ensures
            final(self).wf(),
            final(self).key == old(self).key,
            final(self).header == old(self).header,
            final(self).header_written == old(self).header_written,
            final(self).finalized == old(self).finalized,
            match r {
                Ok(b) => append_error(*old(self), record@) is None && appended(
                    *old(self),
                    *final(self),
                    record@,
                    b@,
                ),
                Err(e) => append_error(*old(self), record@) == Some(e) && *final(self) == *old(
                    self,
                ),
            },
    {
        if !self.header_written || self.finalized {
            return Err(KpdbError::Usage);
        }
        if !record.metadata.has_unique_keys() {
            return Err(KpdbError::Format);
        }
        let ghost rv = record@;
        let nfields = record.metadata.custom_fields.len();
        assert(rv.metadata.len() == nfields);
        let mbytes = record.metadata.serialize();
        let pbytes: Option<Vec<u8>> = match &record.preview {
            Some(p) => Some(p.serialize()),
            None => None,
        };
        let plen: usize = match &pbytes {
            Some(b) => b.len(),
            None => 0,
        };
        assert(plen == preview_block(rv.preview).len());
        let mlen = mbytes.len() as u64;
        let dlen = record.data.len() as u64;
        let room = u64::MAX - self.current_offset;
        if mlen > room || dlen > room - mlen || plen as u64 > room - mlen - dlen {
            return Err(KpdbError::Overflow);
        }
        let moff = self.current_offset;
        let doff = moff + mlen;
        let poff = doff + dlen;
        let end = poff + plen as u64;
        let crc = calculate_crc(record.data.as_slice());
        let mac = calculate_hmac(record.data.as_slice(), self.key.as_slice());
        let file_name = record_name(self.central_directory.files.len());
        let name_len = file_name.as_str().as_bytes().len();
        let mut out = mbytes;
        out.extend_from_slice(record.data.as_slice());
        let (preview_offset, preview_size) = match pbytes {
            Some(b) => {
                out.extend_from_slice(b.as_slice());
                (Some(poff), Some(plen as u64))
            },
            None => (None, None),
        };
        assert(out@ =~= record_bytes(rv));
        let entry = FileMetadata {
            file_name,
            file_offset: doff,
            file_size: dlen,
            crc,
            mac,
            metadata_offset: moff,
            metadata_size: mlen,
            preview_offset,
            preview_size,
        };
        let ghost old_img = self.image@;
        let ghost old_dir = self.central_directory@;
        let ghost ev = entry@;
        self.central_directory.files.push(entry);
        let count = self.central_directory.files.len();
        assert(count == old_dir.len() + 1);
        self.current_offset = end;
        self.image = Ghost(old_img + out@);
        self.records = Ghost(self.records@.push(rv));
        proof {
            let img = self.image@;
            assert(self.central_directory@ =~= old_dir.push(ev));
            assert(self.central_directory@.drop_last() =~= old_dir);
            assert forall|i: int, j: int|
                0 <= i < j < self.central_directory@.len() implies record_end(
                #[trigger] self.central_directory@[i],
            ) <= (#[trigger] self.central_directory@[j]).metadata_offset by {
                if j == old_dir.len() {
                    assert(entry_matches(old_img, old_dir[i], self.records@[i], self.key@));
                } else {
                    assert(self.central_directory@[i] == old_dir[i]);
                    assert(self.central_directory@[j] == old_dir[j]);
                }
            }
            assert(img.subrange(0, HEADER_SIZE as int) =~= old_img.subrange(
                0,
                HEADER_SIZE as int,
            ));
            assert forall|i: int| 0 <= i < self.records@.len() implies entry_matches(
                img,
                #[trigger] self.central_directory@[i],
                self.records@[i],
                self.key@,
            ) by {
                if i < old_dir.len() {
                    let e = old_dir[i];
                    assert(self.central_directory@[i] == e);
                    lemma_span_extend(old_img, out@, e.metadata_offset, e.metadata_size);
                    lemma_span_extend(old_img, out@, e.file_offset, e.file_size);
                    if let Some((o, z)) = e.preview {
                        lemma_span_extend(old_img, out@, o, z);
                    }
                } else {
                    let m = metadata_bytes(rv.metadata);
                    assert(span(img, moff, mlen) =~= m);
                    assert(span(img, doff, dlen) =~= rv.data);
                    lemma_fields_fit(rv.metadata);
                    if let Some(p) = rv.preview {
                        assert(span(img, poff, plen as u64) =~= preview_bytes(p));
                    }
                    assert(encode_utf8(ev.name).len() == name_len);
                }
            }
        }
        Ok(out)
    }

    /// Closes the archive: returns the encoded directory, to append, and
    /// the final header, to write over the first `HEADER_SIZE` bytes.
    pub fn finalize(&mut self) -> (r: Result<(Vec<u8>, Vec<u8>), KpdbError>)
        requires
            old(self).wf(),
        ensures
            final(self).wf(),
            final(self).key == old(self).key,
            final(self).records == old(self).records,
            final(self).central_directory@ == old(self).central_directory@,
            match r {
                Ok((d, h)) => seal_error(*old(self)) is None && sealed(
                    *old(self),
                    *final(self),
                    d@,
                    h@,
                ),
                Err(e) => seal_error(*old(self)) == Some(e) && *final(self) == *old(self),
            },
    {
        if !self.header_written || self.finalized {
            return Err(KpdbError::Usage);
        }
        let dir = self.central_directory.serialize();
        if dir.len() as u64 > u64::MAX - self.current_offset {
            return Err(KpdbError::Overflow);
        }
        let ghost old_img = self.image@;
        let cd_offset = self.current_offset;
        self.header.central_directory_offset = cd_offset;
        self.header.central_directory_size = dir.len() as u64;
        let hdr = self.header.serialize();
        self.current_offset = self.current_offset + dir.len() as u64;
        self.finalized = true;
        self.image = Ghost(
            hdr@ + old_img.subrange(HEADER_SIZE as int, old_img.len() as int) + dir@,
        );
        proof {
            let img = self.image@;
            let rest = old_img.subrange(HEADER_SIZE as int, old_img.len() as int);
            assert(img.subrange(0, HEADER_SIZE as int) =~= hdr@);
            assert(span(img, cd_offset, dir@.len() as u64) =~= dir@);
            assert forall|i: int| 0 <= i < self.records@.len() implies entry_matches(
                img,
                #[trigger] self.central_directory@[i],
                self.records@[i],
                self.key@,
            ) by {
                let e = self.central_directory@[i];
                lemma_span_new_prefix(old_img, hdr@, dir@, e.metadata_offset, e.metadata_size);
                lemma_span_new_prefix(old_img, hdr@, dir@, e.file_offset, e.file_size);
                if let Some((o, z)) = e.preview {
                    lemma_span_new_prefix(old_img, hdr@, dir@, o, z);
                }
            }
        }
        Ok((dir, hdr))
    }
}

/// The directory has one entry per record written, in write order: entry
/// `i` locates record `i`, and each record's blocks precede the next's.
pub proof fn lemma_directory_integrity(w: KPDBWriter)
    requires
        w.wf(),
    ensures
        w.central_directory@.len() == w.records@.len(),
        entries_ordered(w.central_directory@),
        forall|i: int|
            0 <= i < w.records@.len() ==> entry_matches(
                w.image@,
                #[trigger] w.central_directory@[i],
                w.records@[i],
                w.key@,
            ),
{
}

} // verus!
