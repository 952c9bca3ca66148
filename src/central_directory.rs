use crate::codec::{
    get_text, get_u32, get_u64, get_u8, le32, le64, lemma_le32_len, lemma_le64_len, lemma_piece,
    lemma_parse_seq_fails_on, lemma_parse_seq_round_trip, lemma_text_round_trip, lemma_u32_at,
    lemma_u64_at, lemma_u64_round_trip, parse_seq, parse_text, parse_u64, put_text, put_u32,
    put_u64, put_u8, reads_back, seq_bytes, text, u32_at, u64_at,
};
use crate::error::KpdbError;
use vstd::prelude::*;
use vstd::slice::*;
use vstd::utf8::*;

verus! {

broadcast use {lemma_le64_len, lemma_le32_len};

/// Width of an authentication tag.
pub const TAG_SIZE: usize = 32;

/// What a directory entry says of one record.
pub struct EntryView {
    pub name: Seq<char>,
    pub file_offset: u64,
    pub file_size: u64,
    pub crc: u32,
    pub mac: Seq<u8>,
    pub metadata_offset: u64,
    pub metadata_size: u64,
    pub preview: Option<(u64, u64)>,
}

/// The encoding of an entry after its name: offsets and sizes, checksum,
/// tag, then a presence flag and, when set, the preview's offset and size.
pub open spec fn entry_fixed_bytes(e: EntryView) -> Seq<u8> {
    le64(e.file_offset) + le64(e.file_size) + le32(e.crc) + e.mac + le64(e.metadata_offset) + le64(
        e.metadata_size,
    ) + match e.preview {
        Some((o, z)) => seq![1u8] + le64(o) + le64(z),
        None => seq![0u8],
    }
}

pub open spec fn entry_bytes(e: EntryView) -> Seq<u8> {
    text(e.name) + entry_fixed_bytes(e)
}

pub open spec fn entry_enc() -> spec_fn(EntryView) -> Seq<u8> {
    |e: EntryView| entry_bytes(e)
}

/// The entry encoded at `p`, and where it ends.
pub open spec fn parse_entry(s: Seq<u8>, p: int) -> Option<(EntryView, int)> {
    match parse_text(s, p) {
        Some((name, q)) => if q + 69 <= s.len() && (s[q + 68] == 0 || (s[q + 68] == 1 && q + 85
            <= s.len())) {
            let preview = if s[q + 68] == 0 {
                None
            } else {
                Some((u64_at(s, q + 69), u64_at(s, q + 77)))
            };
            let e = EntryView {
                name,
                file_offset: u64_at(s, q),
                file_size: u64_at(s, q + 8),
                crc: u32_at(s, q + 16),
                mac: s.subrange(q + 20, q + 52),
                metadata_offset: u64_at(s, q + 52),
                metadata_size: u64_at(s, q + 60),
                preview,
            };
            Some((e, if preview is None { q + 69 } else { q + 85 }))
        } else {
            None
        },
        None => None,
    }
}

pub open spec fn entry_item() -> spec_fn(Seq<u8>, int) -> Option<(EntryView, int)> {
    |s: Seq<u8>, p: int| parse_entry(s, p)
}

/// The encoding of a directory: the entry count, then the entries.
pub open spec fn directory_bytes(d: Seq<EntryView>) -> Seq<u8> {
    le64(d.len() as u64) + seq_bytes(entry_enc(), d)
}

/// The entries that a whole directory blob encodes.
pub open spec fn parse_directory(s: Seq<u8>) -> Option<Seq<EntryView>> {
    match parse_u64(s, 0) {
        Some((n, q)) => match parse_seq(entry_item(), s, q, n as nat) {
            Some((d, r)) => if r == s.len() {
                Some(d)
            } else {
                None
            },
            None => None,
        },
        None => None,
    }
}

/// An entry that can be stored: a full-width tag, and a name whose
/// encoding a `u64` can measure.
pub open spec fn entry_storable(e: EntryView) -> bool {
    e.mac.len() == TAG_SIZE && encode_utf8(e.name).len() <= u64::MAX
}

/// Where one record's parts lie in the archive, and its tags.
#[derive(Clone, Debug)]
pub struct FileMetadata {
    pub file_name: String,
    pub file_offset: u64,
    pub file_size: u64,
    pub crc: u32,
    pub mac: Vec<u8>,
    pub metadata_offset: u64,
    pub metadata_size: u64,
    pub preview_offset: Option<u64>,
    pub preview_size: Option<u64>,
}

impl View for FileMetadata {
    type V = EntryView;

    open spec fn view(&self) -> EntryView {
        EntryView {
            name: self.file_name@,
            file_offset: self.file_offset,
            file_size: self.file_size,
            crc: self.crc,
            mac: self.mac@,
            metadata_offset: self.metadata_offset,
            metadata_size: self.metadata_size,
            preview: match (self.preview_offset, self.preview_size) {
                (Some(o), Some(z)) => Some((o, z)),
                _ => None,
            },
        }
    }
}

impl FileMetadata {
    /// Both preview fields are present or both absent, and the tag has
    /// its full width.
    pub open spec fn wf(&self) -> bool {
        &&& self.preview_offset.is_some() == self.preview_size.is_some()
        &&& self.mac@.len() == TAG_SIZE
    }

    /// A field-by-field copy.
    pub fn copy(&self) -> (r: FileMetadata)
        ensures
            r@ == self@,
            r.wf() == self.wf(),
    {
        FileMetadata {
            file_name: self.file_name.clone(),
            file_offset: self.file_offset,
            file_size: self.file_size,
            crc: self.crc,
            mac: slice_to_vec(self.mac.as_slice()),
            metadata_offset: self.metadata_offset,
            metadata_size: self.metadata_size,
            preview_offset: self.preview_offset,
            preview_size: self.preview_size,
        }
    }

    pub fn serialize_into(&self, out: &mut Vec<u8>)
        ensures
            final(out)@ == old(out)@ + entry_bytes(self@),
    {
        put_text(out, &self.file_name);
        put_u64(out, self.file_offset);
        put_u64(out, self.file_size);
        put_u32(out, self.crc);
        out.extend_from_slice(self.mac.as_slice());
        put_u64(out, self.metadata_offset);
        put_u64(out, self.metadata_size);
        match (self.preview_offset, self.preview_size) {
            (Some(o), Some(z)) => {
                put_u8(out, 1);
                put_u64(out, o);
                put_u64(out, z);
            },
            _ => {
                put_u8(out, 0);
            },
        }
        assert(final(out)@ =~= old(out)@ + entry_bytes(self@));
    }

    /// Decodes the entry at `pos`.
    pub fn deserialize_at(data: &[u8], pos: usize) -> (r: Option<(FileMetadata, usize)>)
        ensures
            match r {
                Some((m, q)) => parse_entry(data@, pos as int) == Some((m@, q as int)) && m.wf(),
                None => parse_entry(data@, pos as int) is None,
            },
    {
        let (file_name, q) = match get_text(data, pos) {
            Some(x) => x,
            None => return None,
        };
        if data.len() - q < 69 {
            return None;
        }
        let (file_offset, _) = get_u64(data, q).unwrap();
        let (file_size, _) = get_u64(data, q + 8).unwrap();
        let (crc, _) = get_u32(data, q + 16).unwrap();
        let mac = slice_to_vec(slice_subrange(data, q + 20, q + 52));
        let (metadata_offset, _) = get_u64(data, q + 52).unwrap();
        let (metadata_size, _) = get_u64(data, q + 60).unwrap();
        let (flag, _) = get_u8(data, q + 68).unwrap();
        if flag == 0 {
            let m = FileMetadata {
                file_name,
                file_offset,
                file_size,
                crc,
                mac,
                metadata_offset,
                metadata_size,
                preview_offset: None,
                preview_size: None,
            };
            Some((m, q + 69))
        } else if flag == 1 && data.len() - q >= 85 {
            let (o, _) = get_u64(data, q + 69).unwrap();
            let (z, _) = get_u64(data, q + 77).unwrap();
            let m = FileMetadata {
                file_name,
                file_offset,
                file_size,
                crc,
                mac,
                metadata_offset,
                metadata_size,
                preview_offset: Some(o),
                preview_size: Some(z),
            };
            Some((m, q + 85))
        } else {
            None
        }
    }
}

/// The trailer index: one entry per record, in write order.
#[derive(Debug)]
pub struct CentralDirectory {
    pub files: Vec<FileMetadata>,
}

impl View for CentralDirectory {
    type V = Seq<EntryView>;

    open spec fn view(&self) -> Seq<EntryView> {
        self.files@.map_values(|m: FileMetadata| m@)
    }
}

impl CentralDirectory {
    pub open spec fn wf(&self) -> bool {
        forall|i: int| 0 <= i < self.files@.len() ==> (#[trigger] self.files@[i]).wf()
    }

    pub fn new() -> (r: CentralDirectory)
        ensures
            r@ == Seq::<EntryView>::empty(),
            r.wf(),
    {
        let r = CentralDirectory { files: Vec::new() };
        assert(r@ =~= Seq::<EntryView>::empty());
        r
    }

    pub fn serialize(&self) -> (r: Vec<u8>)
        ensures
            r@ == directory_bytes(self@),
    {
        let mut out: Vec<u8> = Vec::new();
        put_u64(&mut out, self.files.len() as u64);
        let mut i: usize = 0;
        while i < self.files.len()
            invariant
                i <= self.files@.len(),
                out@ == le64(self@.len() as u64) + seq_bytes(entry_enc(), self@.take(i as int)),
            decreases self.files@.len() - i,
        {
            self.files[i].serialize_into(&mut out);
            proof {
                let t = self@.take(i + 1);
                assert(t.drop_last() =~= self@.take(i as int));
                assert(out@ =~= le64(self@.len() as u64) + seq_bytes(entry_enc(), t));
            }
            i = i + 1;
        }
        assert(self@.take(self@.len() as int) =~= self@);
        out
    }

    /// Decodes a whole directory blob; a short, overlong or malformed blob
    /// is a format error.
    pub fn deserialize(data: &[u8]) -> (r: Result<CentralDirectory, KpdbError>)
        ensures
            match r {
                Ok(d) => parse_directory(data@) == Some(d@) && d.wf(),
                Err(e) => parse_directory(data@) is None && e == KpdbError::Format,
            },
    {
        let (n, mut pos) = match get_u64(data, 0) {
            Some(x) => x,
            None => return Err(KpdbError::Format),
        };
        let mut files: Vec<FileMetadata> = Vec::new();
        let mut i: u64 = 0;
        while i < n
            invariant
                i <= n,
                parse_u64(data@, 0) == Some((n, 8int)),
                parse_seq(entry_item(), data@, 8, i as nat) == Some(
                    (files@.map_values(|m: FileMetadata| m@), pos as int),
                ),
                forall|j: int| 0 <= j < files@.len() ==> (#[trigger] files@[j]).wf(),
            decreases n - i,
        {
            let ghost acc = files@.map_values(|m: FileMetadata| m@);
            let (m, q) = match FileMetadata::deserialize_at(data, pos) {
                Some(x) => x,
                None => {
                    proof {
                        lemma_parse_seq_fails_on(entry_item(), data@, 8, (i + 1) as nat, n as nat);
                    }
                    return Err(KpdbError::Format);
                },
            };
            let ghost mv = m@;
            files.push(m);
            pos = q;
            i = i + 1;
            proof {
                assert(files@.map_values(|m: FileMetadata| m@) =~= acc.push(mv));
            }
        }
        if pos != data.len() {
            return Err(KpdbError::Format);
        }
        Ok(CentralDirectory { files })
    }
}

pub proof fn lemma_entry_reads_back(e: EntryView)
    requires
        entry_storable(e),
    ensures
        reads_back(entry_item(), entry_enc(), e),
{
    assert forall|t: Seq<u8>, q0: int|
        0 <= q0 && q0 + entry_enc()(e).len() <= t.len() && #[trigger] t.subrange(
            q0,
            q0 + entry_enc()(e).len(),
        ) == entry_enc()(e) implies entry_item()(t, q0) == Some(
        (e, q0 + entry_enc()(e).len()),
    ) by {
        let w = entry_bytes(e);
        let f = entry_fixed_bytes(e);
        let a = text(e.name).len() as int;
        lemma_piece(t, q0, w, 0, a);
        assert(w.subrange(0, a) =~= text(e.name));
        lemma_text_round_trip(t, q0, e.name);
        let q = q0 + a;
        lemma_piece(t, q0, w, a, w.len() as int);
        assert(w.subrange(a, w.len() as int) =~= f);
        lemma_piece(t, q, f, 0, 8);
        assert(f.subrange(0, 8) =~= le64(e.file_offset));
        lemma_u64_at(t, q, e.file_offset);
        lemma_piece(t, q, f, 8, 16);
        assert(f.subrange(8, 16) =~= le64(e.file_size));
        lemma_u64_at(t, q + 8, e.file_size);
        lemma_piece(t, q, f, 16, 20);
        assert(f.subrange(16, 20) =~= le32(e.crc));
        lemma_u32_at(t, q + 16, e.crc);
        lemma_piece(t, q, f, 20, 52);
        assert(f.subrange(20, 52) =~= e.mac);
        lemma_piece(t, q, f, 52, 60);
        assert(f.subrange(52, 60) =~= le64(e.metadata_offset));
        lemma_u64_at(t, q + 52, e.metadata_offset);
        lemma_piece(t, q, f, 60, 68);
        assert(f.subrange(60, 68) =~= le64(e.metadata_size));
        lemma_u64_at(t, q + 60, e.metadata_size);
        lemma_piece(t, q, f, 68, 69);
        assert(t[q + 68] == t.subrange(q + 68, q + 69)[0]);
        match e.preview {
            Some((o, z)) => {
                lemma_piece(t, q, f, 69, 77);
                assert(f.subrange(69, 77) =~= le64(o));
                lemma_u64_at(t, q + 69, o);
                lemma_piece(t, q, f, 77, 85);
                assert(f.subrange(77, 85) =~= le64(z));
                lemma_u64_at(t, q + 77, z);
            },
            None => {},
        }
    }
}

/// A directory blob decodes to the entries it was encoded from.
pub proof fn lemma_directory_round_trip(d: Seq<EntryView>)
    requires
        forall|i: int| 0 <= i < d.len() ==> entry_storable(#[trigger] d[i]),
        d.len() <= u64::MAX,
    ensures
        parse_directory(directory_bytes(d)) == Some(d),
{
    let s = directory_bytes(d);
    let body = seq_bytes(entry_enc(), d);
    assert(s.subrange(0, 8) =~= le64(d.len() as u64));
    lemma_u64_round_trip(s, 0, d.len() as u64);
    assert forall|i: int| 0 <= i < d.len() implies reads_back(
        entry_item(),
        entry_enc(),
        #[trigger] d[i],
    ) by {
        lemma_entry_reads_back(d[i]);
    }
    assert(s.subrange(8, 8 + body.len() as int) =~= body);
    lemma_parse_seq_round_trip(entry_item(), entry_enc(), s, 8, d);
}

} // verus!
