use kpdb::archive::{Serializable, KPDB};
use kpdb::central_directory::{CentralDirectory, FileMetadata};
use kpdb::complex_data::ComplexData;
use kpdb::error::KpdbError;
use kpdb::file_record::{FileRecord, Preview};
use kpdb::header::{Header, HEADER_PADDING_SIZE, HEADER_SIZE};
use kpdb::integrity::{calculate_crc, calculate_hmac};
use kpdb::kpdb_reader::KPDBReader;
use kpdb::kpdb_writer::KPDBWriter;
use kpdb::metadata::Metadata;

/// Lays the writer's outputs into a file image, as a file would hold them.
struct Image {
    bytes: Vec<u8>,
}

impl Image {
    fn append(&mut self, b: &[u8]) {
        self.bytes.extend_from_slice(b);
    }

    fn finish(&mut self, directory: &[u8], header: &[u8]) {
        self.bytes.extend_from_slice(directory);
        self.bytes[..header.len()].copy_from_slice(header);
    }

    fn span(&self, off: u64, size: u64) -> &[u8] {
        &self.bytes[off as usize..(off + size) as usize]
    }

    fn open(&self) -> KPDBReader {
        let h = Header::deserialize(&self.bytes[..HEADER_SIZE]).unwrap();
        let d = self.span(h.central_directory_offset, h.central_directory_size);
        KPDBReader::open(&self.bytes[..HEADER_SIZE], d).unwrap()
    }

    fn read(&self, r: &KPDBReader, index: usize) -> Result<FileRecord, KpdbError> {
        let e = &r.central_directory.files[index];
        let p = match (e.preview_offset, e.preview_size) {
            (Some(o), Some(z)) => Some(self.span(o, z)),
            _ => None,
        };
        r.read_file_record(
            index,
            self.span(e.metadata_offset, e.metadata_size),
            self.span(e.file_offset, e.file_size),
            p,
        )
    }
}

fn key() -> Vec<u8> {
    b"deployment-key".to_vec()
}

fn write_archive(payloads: &[Vec<u8>]) -> (Image, KPDBWriter) {
    let mut w = KPDBWriter::new(key());
    let mut img = Image { bytes: w.write_header().unwrap() };
    for p in payloads {
        let out = w.write_file_record(FileRecord::new(p.clone(), Metadata::new(), None)).unwrap();
        img.append(&out);
    }
    let (d, h) = w.finalize().unwrap();
    img.finish(&d, &h);
    (img, w)
}

fn facade_read_args(img: &Image, k: &KPDB, index: usize) -> (Vec<u8>, Vec<u8>) {
    let files = k.list_files().unwrap();
    let e = &files[index];
    (
        img.span(e.metadata_offset, e.metadata_size).to_vec(),
        img.span(e.file_offset, e.file_size).to_vec(),
    )
}

#[test]
fn round_trip_payloads() {
    let payloads = vec![vec![], vec![0u8], vec![9u8; 1000], b"hello".to_vec()];
    let (img, _) = write_archive(&payloads);
    let r = img.open();
    assert_eq!(r.central_directory.files.len(), payloads.len());
    for (i, p) in payloads.iter().enumerate() {
        assert_eq!(&img.read(&r, i).unwrap().data, p);
    }
}

#[test]
fn round_trip_metadata_and_preview() {
    let mut w = KPDBWriter::new(key());
    let mut img = Image { bytes: w.write_header().unwrap() };
    let meta = Metadata {
        custom_fields: vec![
            ("author".to_string(), "ana".to_string()),
            ("título".to_string(), "ñandú".to_string()),
        ],
    };
    let prev = Preview::new("image/png".to_string(), vec![137, 80, 78, 71]);
    let out = w.write_file_record(FileRecord::new(vec![1, 2, 3], meta, Some(prev))).unwrap();
    img.append(&out);
    let (d, h) = w.finalize().unwrap();
    img.finish(&d, &h);
    let r = img.open();
    let rec = img.read(&r, 0).unwrap();
    assert_eq!(rec.data, vec![1, 2, 3]);
    assert_eq!(rec.metadata.custom_fields.len(), 2);
    assert_eq!(rec.metadata.custom_fields[1].0, "título");
    assert_eq!(rec.metadata.custom_fields[1].1, "ñandú");
    let p = rec.preview.unwrap();
    assert_eq!(p.mime_type, "image/png");
    assert_eq!(p.data, vec![137, 80, 78, 71]);
}

#[test]
fn layout_offsets() {
    let (img, w) = write_archive(&[vec![1, 2, 3, 4, 5]]);
    let e = &w.central_directory.files[0];
    let start = HEADER_SIZE as u64 + HEADER_PADDING_SIZE;
    assert_eq!(e.metadata_offset, start);
    assert_eq!(e.metadata_size, 8);
    assert_eq!(e.file_offset, start + 8);
    assert_eq!(e.file_size, 5);
    assert_eq!(e.preview_offset, None);
    assert_eq!(w.header.central_directory_offset, start + 13);
    assert_eq!(
        img.bytes.len() as u64,
        w.header.central_directory_offset + w.header.central_directory_size
    );
    assert_eq!(&img.bytes[HEADER_SIZE..HEADER_SIZE + 10], &[0u8; 10]);
    assert_eq!(e.file_name, "file_0");
}

#[test]
fn tag_determinism() {
    let a = b"some record bytes".to_vec();
    assert_eq!(calculate_crc(&a), calculate_crc(&a.clone()));
    assert_eq!(calculate_hmac(&a, b"k"), calculate_hmac(&a.clone(), b"k"));
    let mut b = a.clone();
    b[3] ^= 1;
    assert_ne!(calculate_crc(&a), calculate_crc(&b));
    assert_ne!(calculate_hmac(&a, b"k"), calculate_hmac(&b, b"k"));
    assert_ne!(calculate_hmac(&a, b"k"), calculate_hmac(&a, b"j"));
}

#[test]
fn crc_known_value() {
    assert_eq!(calculate_crc(b"123456789"), 0xCBF4_3926);
    assert_eq!(calculate_crc(b""), 0);
}

#[test]
fn hmac_known_value() {
    let tag = calculate_hmac(b"what do ya want for nothing?", b"Jefe");
    let expected: Vec<u8> = vec![
        0x5b, 0xdc, 0xc1, 0x46, 0xbf, 0x60, 0x75, 0x4e, 0x6a, 0x04, 0x24, 0x26, 0x08, 0x95, 0x75,
        0xc7, 0x5a, 0x00, 0x3f, 0x08, 0x9d, 0x27, 0x39, 0x83, 0x9d, 0xec, 0x58, 0xb9, 0x64, 0xec,
        0x38, 0x43,
    ];
    assert_eq!(tag, expected);
}

#[test]
fn entry_tags_stored() {
    let (_, w) = write_archive(&[b"payload".to_vec()]);
    let e = &w.central_directory.files[0];
    assert_eq!(e.crc, calculate_crc(b"payload"));
    assert_eq!(e.mac, calculate_hmac(b"payload", &key()));
    assert_eq!(e.mac.len(), 32);
}

#[test]
fn directory_integrity() {
    let payloads: Vec<Vec<u8>> = (0..7u8).map(|i| vec![i; i as usize + 1]).collect();
    let (img, w) = write_archive(&payloads);
    let r = img.open();
    assert_eq!(w.central_directory.files.len(), 7);
    assert_eq!(r.central_directory.files.len(), 7);
    for i in 0..7 {
        let e = &r.central_directory.files[i];
        assert_eq!(e.file_size, i as u64 + 1);
        assert_eq!(e.file_name, format!("file_{}", i));
        if i > 0 {
            assert!(e.file_offset > r.central_directory.files[i - 1].file_offset);
        }
    }
}

#[test]
fn idempotent_open() {
    let (img, _) = write_archive(&[vec![1], vec![2, 2]]);
    let a = img.open();
    let b = img.open();
    assert_eq!(a.header.timestamp, b.header.timestamp);
    assert_eq!(a.header.central_directory_offset, b.header.central_directory_offset);
    assert_eq!(a.header.central_directory_size, b.header.central_directory_size);
    assert_eq!(a.header.magic_number, b.header.magic_number);
    assert_eq!(a.central_directory.files.len(), b.central_directory.files.len());
    for i in 0..2 {
        let (x, y) = (&a.central_directory.files[i], &b.central_directory.files[i]);
        assert_eq!(x.file_name, y.file_name);
        assert_eq!(x.file_offset, y.file_offset);
        assert_eq!(x.crc, y.crc);
        assert_eq!(x.mac, y.mac);
    }
}

#[test]
fn bounds_safety() {
    let (img, _) = write_archive(&[vec![1, 2]]);
    let r = img.open();
    let res = r.read_file_record(1, &[], &[], None);
    assert!(matches!(res, Err(KpdbError::Range)));
    let res = r.read_file_record(usize::MAX, &[], &[], None);
    assert!(matches!(res, Err(KpdbError::Range)));
    assert_eq!(img.read(&r, 0).unwrap().data, vec![1, 2]);
}

#[test]
fn scenario_facade() {
    let (mut k, start) = KPDB::new(key());
    let mut img = Image { bytes: start };
    img.append(&k.write(&vec![1u8, 2, 3, 4, 5]).unwrap());
    let b = ComplexData { field1: "Hello".to_string(), field2: 42 };
    img.append(&k.write(&b).unwrap());
    let (d, h) = k.finalize().unwrap();
    img.finish(&d, &h);

    let hb = img.bytes[..HEADER_SIZE].to_vec();
    let hdr = Header::deserialize(&hb).unwrap();
    let db = img.span(hdr.central_directory_offset, hdr.central_directory_size).to_vec();
    let r = KPDB::open(&hb, &db).unwrap();
    let (m0, d0) = facade_read_args(&img, &r, 0);
    let a: Vec<u8> = r.read(0, &m0, &d0, None).unwrap();
    assert_eq!(a, vec![1, 2, 3, 4, 5]);
    let (m1, d1) = facade_read_args(&img, &r, 1);
    let c: ComplexData = r.read(1, &m1, &d1, None).unwrap();
    assert_eq!(c, ComplexData { field1: "Hello".to_string(), field2: 42 });
}

#[test]
fn bytes_codec_is_length_prefixed() {
    let enc = vec![7u8, 8].serialize();
    assert_eq!(enc, vec![2, 0, 0, 0, 0, 0, 0, 0, 7, 8]);
    assert_eq!(<Vec<u8> as Serializable>::deserialize(&enc), Some(vec![7u8, 8]));
    assert_eq!(<Vec<u8> as Serializable>::deserialize(&enc[..9]), None);
}

#[test]
fn facade_mode_errors() {
    let (mut k, _) = KPDB::new(key());
    assert!(matches!(k.read::<Vec<u8>>(0, &[], &[], None), Err(KpdbError::Mode)));
    assert_eq!(k.list_files().unwrap().len(), 0);
    let (img, _) = write_archive(&[vec![1]]);
    let hdr = Header::deserialize(&img.bytes[..HEADER_SIZE]).unwrap();
    let db = img.span(hdr.central_directory_offset, hdr.central_directory_size);
    let mut r = KPDB::open(&img.bytes[..HEADER_SIZE], db).unwrap();
    assert!(matches!(r.write(&vec![1u8]), Err(KpdbError::Mode)));
    assert!(matches!(r.finalize(), Err(KpdbError::Mode)));
    assert_eq!(r.list_files().unwrap().len(), 1);
    assert!(matches!(r.read::<Vec<u8>>(5, &[], &[], None), Err(KpdbError::Range)));
    assert!(k.finalize().is_ok());
}

#[test]
fn usage_errors() {
    let mut w = KPDBWriter::new(key());
    let rec = || FileRecord::new(vec![1], Metadata::new(), None);
    assert!(matches!(w.write_file_record(rec()), Err(KpdbError::Usage)));
    assert!(matches!(w.finalize(), Err(KpdbError::Usage)));
    assert!(w.write_header().is_ok());
    assert!(matches!(w.write_header(), Err(KpdbError::Usage)));
    assert!(w.write_file_record(rec()).is_ok());
    assert!(w.finalize().is_ok());
    assert!(matches!(w.write_file_record(rec()), Err(KpdbError::Usage)));
    assert!(matches!(w.finalize(), Err(KpdbError::Usage)));
}

#[test]
fn header_encoding() {
    let h = Header::new();
    let b = h.serialize();
    assert_eq!(b.len(), 39);
    assert_eq!(&b[..7], &[b'K', b'P', b'D', b'B', 0, 1, 0]);
    assert_eq!(&b[31..39], &[10, 0, 0, 0, 0, 0, 0, 0]);
    let back = Header::deserialize(&b).unwrap();
    assert_eq!(back.timestamp, h.timestamp);
    assert_eq!(back.padding_size, 10);
    assert_eq!(back.version.minor, 1);
}

#[test]
fn header_format_errors() {
    let b = Header::new().serialize();
    assert!(matches!(Header::deserialize(&b[..38]), Err(KpdbError::Format)));
    let mut bad = b.clone();
    bad[0] = b'X';
    assert!(matches!(Header::deserialize(&bad), Err(KpdbError::Format)));
    let mut newer = b.clone();
    newer[4] = 1;
    assert!(matches!(Header::deserialize(&newer), Err(KpdbError::Format)));
    assert!(matches!(KPDBReader::open(&bad, &[0u8; 8]), Err(KpdbError::Format)));
}

#[test]
fn directory_format_errors() {
    assert!(matches!(CentralDirectory::deserialize(&[1, 0, 0]), Err(KpdbError::Format)));
    assert!(matches!(
        CentralDirectory::deserialize(&[1, 0, 0, 0, 0, 0, 0, 0]),
        Err(KpdbError::Format)
    ));
    assert!(matches!(
        CentralDirectory::deserialize(&[0, 0, 0, 0, 0, 0, 0, 0, 5]),
        Err(KpdbError::Format)
    ));
    let d = CentralDirectory::deserialize(&[0, 0, 0, 0, 0, 0, 0, 0]).unwrap();
    assert_eq!(d.files.len(), 0);
    assert_eq!(CentralDirectory::new().serialize(), vec![0u8; 8]);
}

#[test]
fn directory_entry_round_trip() {
    let e = FileMetadata {
        file_name: "file_3".to_string(),
        file_offset: 100,
        file_size: 5,
        crc: 0xDEADBEEF,
        mac: vec![7u8; 32],
        metadata_offset: 92,
        metadata_size: 8,
        preview_offset: Some(105),
        preview_size: Some(30),
    };
    let d = CentralDirectory { files: vec![e.clone(), FileMetadata { preview_offset: None, preview_size: None, ..e }] };
    let bytes = d.serialize();
    assert_eq!(bytes.len(), 8 + (8 + 6 + 69 + 16) + (8 + 6 + 69));
    let back = CentralDirectory::deserialize(&bytes).unwrap();
    assert_eq!(back.files[0].crc, 0xDEADBEEF);
    assert_eq!(back.files[0].preview_size, Some(30));
    assert_eq!(back.files[1].preview_offset, None);
    assert_eq!(back.files[1].file_name, "file_3");
    assert!(matches!(CentralDirectory::deserialize(&bytes[..bytes.len() - 1]), Err(KpdbError::Format)));
}

#[test]
fn metadata_encoding() {
    let m = Metadata { custom_fields: vec![("a".to_string(), "bc".to_string())] };
    let b = m.serialize();
    assert_eq!(
        b,
        vec![1, 0, 0, 0, 0, 0, 0, 0, 1, 0, 0, 0, 0, 0, 0, 0, b'a', 2, 0, 0, 0, 0, 0, 0, 0, b'b', b'c']
    );
    let back = Metadata::deserialize(&b).unwrap();
    assert_eq!(back.custom_fields, m.custom_fields);
    assert!(matches!(Metadata::deserialize(&b[..b.len() - 1]), Err(KpdbError::Format)));
    let mut invalid = b.clone();
    invalid[16] = 0xFF;
    assert!(matches!(Metadata::deserialize(&invalid), Err(KpdbError::Format)));
    assert_eq!(Metadata::new().serialize(), vec![0u8; 8]);
}

#[test]
fn preview_encoding() {
    let p = Preview::new("t".to_string(), vec![9]);
    let b = p.serialize();
    assert_eq!(b, vec![1, 0, 0, 0, 0, 0, 0, 0, b't', 1, 0, 0, 0, 0, 0, 0, 0, 9]);
    let back = Preview::deserialize(&b).unwrap();
    assert_eq!(back.mime_type, "t");
    assert_eq!(back.data, vec![9]);
    let mut longer = b.clone();
    longer.push(0);
    assert!(matches!(Preview::deserialize(&longer), Err(KpdbError::Format)));
}

#[test]
fn record_block_mismatch() {
    let (img, _) = write_archive(&[vec![1, 2, 3]]);
    let r = img.open();
    let e = &r.central_directory.files[0];
    let m = img.span(e.metadata_offset, e.metadata_size);
    assert!(matches!(r.read_file_record(0, m, &[1, 2], None), Err(KpdbError::Format)));
    assert!(matches!(r.read_file_record(0, m, &[1, 2, 3], Some(&[0u8])), Err(KpdbError::Format)));
    assert!(matches!(r.read_file_record(0, &[0u8; 7], &[1, 2, 3], None), Err(KpdbError::Format)));
}

#[test]
fn verify_detects_tampering() {
    let (mut img, _) = write_archive(&[b"original".to_vec()]);
    let r = img.open();
    let e = r.central_directory.files[0].clone();
    let data = img.span(e.file_offset, e.file_size).to_vec();
    assert!(r.verify_file_record(0, &data, &key()).is_ok());
    assert!(matches!(r.verify_file_record(0, &data, b"other-key"), Err(KpdbError::Mismatch)));
    assert!(matches!(r.verify_file_record(1, &data, &key()), Err(KpdbError::Range)));
    img.bytes[e.file_offset as usize] ^= 0x20;
    let tampered = img.span(e.file_offset, e.file_size).to_vec();
    assert!(matches!(r.verify_file_record(0, &tampered, &key()), Err(KpdbError::Mismatch)));
}

#[test]
fn metadata_insert_keeps_keys_unique() {
    let mut m = Metadata::new();
    m.insert("a".to_string(), "1".to_string());
    m.insert("b".to_string(), "2".to_string());
    m.insert("a".to_string(), "3".to_string());
    assert_eq!(
        m.custom_fields,
        vec![("a".to_string(), "3".to_string()), ("b".to_string(), "2".to_string())]
    );
    assert!(m.has_unique_keys());
}

#[test]
fn duplicate_keys_refused() {
    let m = Metadata {
        custom_fields: vec![("k".to_string(), "1".to_string()), ("k".to_string(), "2".to_string())],
    };
    assert!(!m.has_unique_keys());
    assert!(matches!(Metadata::deserialize(&m.serialize()), Err(KpdbError::Format)));
    let mut w = KPDBWriter::new(key());
    w.write_header().unwrap();
    let res = w.write_file_record(FileRecord::new(vec![1], m, None));
    assert!(matches!(res, Err(KpdbError::Format)));
    assert_eq!(w.central_directory.files.len(), 0);
}

#[test]
fn record_names_are_sequential() {
    let payloads: Vec<Vec<u8>> = (0..12u8).map(|i| vec![i]).collect();
    let (_, w) = write_archive(&payloads);
    assert_eq!(w.central_directory.files[0].file_name, "file_0");
    assert_eq!(w.central_directory.files[9].file_name, "file_9");
    assert_eq!(w.central_directory.files[10].file_name, "file_10");
    assert_eq!(w.central_directory.files[11].file_name, "file_11");
}

#[test]
fn header_stamped_fields() {
    let h = Header::stamped(1_700_000_000);
    assert_eq!(h.timestamp, 1_700_000_000);
    assert_eq!(h.magic_number, *b"KPDB");
    assert_eq!((h.version.major, h.version.minor, h.version.patch), (0, 1, 0));
    assert_eq!(h.central_directory_offset, 0);
    assert_eq!(h.central_directory_size, 0);
    assert_eq!(h.padding_size, 10);
    assert_eq!(&h.serialize()[7..15], &1_700_000_000u64.to_le_bytes());
}

#[test]
fn facade_new_header() {
    let (k, start) = KPDB::new(key());
    assert_eq!(start.len(), HEADER_SIZE + 10);
    let h = Header::deserialize(&start).unwrap();
    assert_eq!((h.version.major, h.version.minor, h.version.patch), (0, 1, 0));
    assert_eq!(h.central_directory_offset, 0);
    assert_eq!(h.central_directory_size, 0);
    assert!(k.list_files().unwrap().is_empty());
}

#[test]
fn complex_data_codec() {
    let v = ComplexData { field1: "Hello".to_string(), field2: -2 };
    let enc = v.serialize();
    assert_eq!(
        enc,
        vec![5, 0, 0, 0, 0, 0, 0, 0, b'H', b'e', b'l', b'l', b'o', 0xFE, 0xFF, 0xFF, 0xFF]
    );
    assert_eq!(ComplexData::deserialize(&enc), Some(v));
    assert_eq!(ComplexData::deserialize(&enc[..16]), None);
    let mut longer = enc.clone();
    longer.push(0);
    assert_eq!(ComplexData::deserialize(&longer), None);
}

#[test]
fn facade_entry_size_matches_encoding() {
    let (mut k, _) = KPDB::new(key());
    let v = vec![4u8, 5, 6];
    k.write(&v).unwrap();
    let files = k.list_files().unwrap();
    assert_eq!(files[0].file_size, v.serialize().len() as u64);
    assert_eq!(files[0].metadata_size, Metadata::new().serialize().len() as u64);
    assert_eq!(files[0].file_name, "file_0");
}
