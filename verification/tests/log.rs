//! The log: what is written, what is read back, and what is refused.

use crc32fast::hash as crc32;
use turndb::read_limits::{ReadAdmissionError, ReadLimits};
use turndb::store::wal::{
    Frame, Wal, WalError, BATCH_COMPLETE_TAG, BUF_FLUSH, CRC, HDR, RECORD_TAG, TOMB_TAG,
};
use turndb::store::wire::{
    decode_record, encode_record, put_attrs, put_bytes, put_novel, put_ops, WireError,
};
use turndb::types::{AttrValue, Content, ContentHash, ContentOp, PieceHash, Record};
use turndb::varint::{get_varint, put_varint, VarintError};

/// A host's log file: the bytes that were written out.
fn written(wal: &mut Wal, file: &mut Vec<u8>) {
    let (at, bytes) = wal.unflushed();
    assert_eq!(at as usize, file.len());
    file.extend_from_slice(bytes);
    wal.flushed();
}

fn fresh() -> Wal {
    let (wal, cut) = Wal::open_recovered(ReadLimits::default(), 0, 0, 0).unwrap();
    assert!(!cut);
    wal
}

fn continued(file: &mut Vec<u8>) -> Wal {
    let state = Wal::replay_state_with_limits(file, &ReadLimits::default()).unwrap();
    let (wal, cut) = Wal::open_recovered(
        ReadLimits::default(),
        state.physical_frames,
        state.valid_bytes,
        file.len() as u64,
    )
    .unwrap();
    if cut {
        file.truncate(state.valid_bytes as usize);
    }
    wal
}

fn rec() -> (Record, Vec<(PieceHash, Vec<u8>)>) {
    let bytes = b"a piece of content".to_vec();
    let h = PieceHash::of(&bytes);
    let mut value = b"[".to_vec();
    value.extend_from_slice(&bytes);
    value.extend_from_slice(b"]");
    (
        Record {
            id: "trace:1#input".into(),
            contents: vec![Content::identified(
                "body",
                vec![
                    ContentOp::Lit(b"[".to_vec()),
                    ContentOp::Piece { hash: h, len: bytes.len() as u32 },
                    ContentOp::Lit(b"]".to_vec()),
                ],
                ContentHash::of(&value),
            )],
            attrs: vec![
                ("k".into(), AttrValue::Str("v".into())),
                ("k".into(), AttrValue::Int(-5)),
                ("f".into(), AttrValue::Float(0x7ff8_0000_0000_0001)),
                ("z".into(), AttrValue::Float((-0.0f64).to_bits())),
                ("b".into(), AttrValue::Bool(true)),
                ("u".into(), AttrValue::UInt(u64::MAX)),
                ("raw".into(), AttrValue::Bytes(vec![0, 0xff, 1])),
                ("at".into(), AttrValue::TimestampNs(i64::MIN)),
                ("none".into(), AttrValue::Null),
            ],
        },
        vec![(h, bytes)],
    )
}

fn replay(file: &[u8]) -> Result<Vec<Frame>, WalError> {
    Wal::replay(file)
}

#[test]
fn replay_admits_a_complete_frame_before_payload_allocation() {
    let mut file = Vec::new();
    let mut wal = fresh();
    wal.append_tomb(1, &"x".repeat(128)).unwrap();
    written(&mut wal, &mut file);
    let strict = ReadLimits {
        max_stored_frame_bytes: 64,
        max_decoded_frame_bytes: 64,
        ..ReadLimits::default()
    };
    let error = match Wal::replay_with_limits(&file, &strict) {
        Ok(_) => panic!("strict replay must refuse the complete larger frame"),
        Err(error) => error,
    };
    assert!(matches!(
        error,
        WalError::Admission(ReadAdmissionError::StoredFrameTooLarge { actual: 128, allowed: 64 })
    ));
}

#[test]
fn record_wire_roundtrips_exactly() {
    let (r, novel) = rec();
    let mut b = Vec::new();
    encode_record(&mut b, &r, &novel).unwrap();
    let (got, gn) = decode_record(&b).unwrap();
    assert_eq!(got, r, "record must replay exactly, attr order and dupes included");
    assert_eq!(gn.len(), 1);
    assert_eq!(gn[0].1, novel[0].1);
    match (&got.attrs[2].1, &r.attrs[2].1) {
        (AttrValue::Float(a), AttrValue::Float(b)) => assert_eq!(a, b),
        _ => panic!(),
    }
}

#[test]
fn record_wire_refuses_noncanonical_content_order() {
    let mut bytes = Vec::new();
    put_bytes(&mut bytes, b"record");
    put_varint(&mut bytes, 2);
    let identity = ContentHash::of(b"");
    for name in [b"z".as_slice(), b"a".as_slice()] {
        put_bytes(&mut bytes, name);
        bytes.extend_from_slice(&identity.0);
        put_ops(&mut bytes, &[]);
    }
    put_attrs(&mut bytes, &[]);
    put_novel(&mut bytes, &[]);
    assert_eq!(
        decode_record(&bytes).unwrap_err(),
        WireError::ContentOrder,
        "the reader must not sort hostile WAL bytes into a valid semantic record"
    );
}

#[test]
fn record_wire_refuses_false_content_identity_and_empty_attribute_name() {
    let mut false_identity = Vec::new();
    put_bytes(&mut false_identity, b"record");
    put_varint(&mut false_identity, 1);
    put_bytes(&mut false_identity, b"body");
    false_identity.extend_from_slice(&ContentHash::of(b"different").0);
    put_ops(&mut false_identity, &[ContentOp::Lit(b"actual".to_vec())]);
    put_attrs(&mut false_identity, &[]);
    put_novel(&mut false_identity, &[]);
    assert_eq!(decode_record(&false_identity).unwrap_err(), WireError::IdentityMismatch);

    let mut empty_attr = Vec::new();
    put_bytes(&mut empty_attr, b"record");
    put_varint(&mut empty_attr, 0);
    put_attrs(&mut empty_attr, &[(String::new(), AttrValue::Null)]);
    put_novel(&mut empty_attr, &[]);
    assert_eq!(decode_record(&empty_attr).unwrap_err(), WireError::EmptyAttrName);

    let mut zero_piece = Vec::new();
    put_bytes(&mut zero_piece, b"record");
    put_varint(&mut zero_piece, 1);
    put_bytes(&mut zero_piece, b"body");
    zero_piece.extend_from_slice(&ContentHash::of(b"").0);
    put_ops(&mut zero_piece, &[ContentOp::Piece { hash: PieceHash::of(b""), len: 0 }]);
    put_attrs(&mut zero_piece, &[]);
    put_novel(&mut zero_piece, &[]);
    assert_eq!(
        decode_record(&zero_piece).unwrap_err(),
        WireError::ZeroPiece,
        "a zero-length piece op must refuse"
    );

    let mut zero_novel = Vec::new();
    put_bytes(&mut zero_novel, b"record");
    put_varint(&mut zero_novel, 0);
    put_attrs(&mut zero_novel, &[]);
    put_novel(&mut zero_novel, &[(PieceHash::of(b""), Vec::new())]);
    assert_eq!(
        decode_record(&zero_novel).unwrap_err(),
        WireError::EmptyNovel,
        "empty novel piece bytes must refuse"
    );
}

#[test]
fn public_wal_writers_refuse_unreplayable_records_before_buffering_frames() {
    let mut wal = fresh();

    assert_eq!(wal.append_batch(1, &[]), Err(WalError::EmptyBatch));
    assert_eq!(wal.bytes(), 0, "an empty batch must not write a marker the reader refuses");

    assert_eq!(wal.append_tomb(1, ""), Err(WalError::EmptyId));
    assert_eq!(wal.bytes(), 0);

    let invalid = Record {
        id: "invalid".into(),
        contents: Vec::new(),
        attrs: vec![(String::new(), AttrValue::Null)],
    };
    assert!(wal.append(1, &invalid, &[]).is_err());
    assert_eq!(wal.bytes(), 0);

    let zero_piece = Record {
        id: "zero-piece".into(),
        contents: vec![Content::identified(
            "body",
            vec![ContentOp::Piece { hash: PieceHash::of(b""), len: 0 }],
            ContentHash::of(b""),
        )],
        attrs: Vec::new(),
    };
    assert!(wal.append(1, &zero_piece, &[]).is_err());
    assert_eq!(wal.bytes(), 0, "zero-length piece refusal must precede WAL buffering");

    let empty_novel = vec![(PieceHash::of(b""), Vec::new())];
    let (valid, _) = rec();
    assert!(wal.append(1, &valid, &empty_novel).is_err());
    assert_eq!(wal.bytes(), 0, "empty novel-piece refusal must precede WAL buffering");

    let (valid, novel) = rec();
    assert!(wal.append_batch(1, &[(valid, novel, false), (invalid, Vec::new(), false)]).is_err());
    assert_eq!(wal.bytes(), 0, "a late invalid batch member must precede every frame");

    let tomb_with_payload = Record {
        id: "deleted".into(),
        contents: Vec::new(),
        attrs: vec![("hidden".into(), AttrValue::Bool(true))],
    };
    assert_eq!(
        wal.append_batch(1, &[(tomb_with_payload, Vec::new(), true)]),
        Err(WalError::TombstonePayload)
    );
    assert_eq!(wal.bytes(), 0);
    let (at, bytes) = wal.unflushed();
    assert_eq!((at, bytes.len()), (0, 0));
}

#[test]
fn log_replays_and_stops_at_a_torn_tail() {
    let (r, novel) = rec();
    let mut file = Vec::new();
    let mut w = fresh();
    for s in 1..=5 {
        w.append(s, &r, &novel).unwrap();
    }
    written(&mut w, &mut file);
    assert_eq!(replay(&file).unwrap().len(), 5);
    let whole = file.len() as u64;

    // A crash mid-append: a frame header promising more than landed.
    file.extend_from_slice(&[RECORD_TAG, 9, 0, 0, 0, 0, 0, 0, 0, 255, 255, 0, 0]);
    file.extend_from_slice(b"short");
    let frames = replay(&file).unwrap();
    assert_eq!(frames.len(), 5, "a torn tail is the end of the log, not an error");
    assert_eq!(frames[4].seq, 5);

    let state = Wal::replay_state_with_limits(&file, &ReadLimits::default()).unwrap();
    assert_eq!(state.valid_bytes, whole);
    let (_, cut) = Wal::open_recovered(
        ReadLimits::default(),
        state.physical_frames,
        state.valid_bytes,
        file.len() as u64,
    )
    .unwrap();
    assert!(cut);
    assert!(matches!(
        Wal::open_recovered(ReadLimits::default(), 0, 2, 1),
        Err(WalError::ReplayBoundary)
    ));
}

#[test]
fn a_checksum_failure_before_later_frames_is_corruption_not_a_torn_tail() {
    let (r, novel) = rec();
    let mut file = Vec::new();
    let mut writer = fresh();
    writer.append(1, &r, &novel).unwrap();
    writer.append(1, &r, &novel).unwrap();
    written(&mut writer, &mut file);

    let first_payload = HDR;
    file[first_payload] ^= 1;
    let error = replay(&file).err().expect("middle checksum damage must refuse");
    let frame = file.len() as u64 / 2;
    assert_eq!(error, WalError::ChecksumBeforeLaterBytes { offset: 0, later: frame });
}

#[test]
fn a_batch_replays_all_or_nothing() {
    let mk = |id: &str| {
        let (mut r, n) = rec();
        r.id = id.into();
        (r, n)
    };
    let (a, na) = mk("a");
    let (b, nb) = mk("b");
    let mut file = Vec::new();
    let mut w = fresh();
    w.append(1, &a, &na).unwrap();
    let tomb = Record { id: "z".into(), contents: Vec::new(), attrs: Vec::new() };
    w.append_batch(
        2,
        &[
            (a.clone(), na.clone(), false),
            (tomb, Vec::new(), true),
            (b.clone(), nb.clone(), false),
        ],
    )
    .unwrap();
    written(&mut w, &mut file);
    let f = replay(&file).unwrap();
    assert_eq!(f.len(), 4, "standalone + three committed members");
    assert!(f[2].tomb && f[2].record.id == "z");
    assert_eq!(f[3].record.id, "b");

    // Tear the marker off: the members are uncommitted and contribute nothing.
    let flen = file.len();
    file.truncate(flen - (HDR + 1 + CRC));
    let f = replay(&file).unwrap();
    assert_eq!(f.len(), 1, "an uncommitted batch must not replay a prefix of itself");

    // A committed batch after the abandoned run: its marker commits its members, not the strays.
    let mut w = continued(&mut file);
    w.append_batch(3, &[(b.clone(), nb.clone(), false)]).unwrap();
    written(&mut w, &mut file);
    let f = replay(&file).unwrap();
    assert_eq!(f.len(), 2, "abandoned members stay discarded");
    assert_eq!(f[1].record.id, "b");

    // A marker claiming more members than precede it is corruption that checksums: refuse.
    let mut second = Vec::new();
    let mut w = fresh();
    let mut count = Vec::new();
    put_varint(&mut count, 5);
    w.append_frame(BATCH_COMPLETE_TAG, 1, &count).unwrap();
    written(&mut w, &mut second);
    assert_eq!(
        replay(&second).err(),
        Some(WalError::MarkerUncovered),
        "a marker naming absent frames must refuse the log"
    );
}

#[test]
fn a_batch_marker_must_carry_its_members_sequence() {
    let (r, novel) = rec();
    let mut bytes = Vec::new();
    let mut writer = fresh();
    writer.append_batch(7, &[(r, novel, false)]).unwrap();
    written(&mut writer, &mut bytes);

    let first_len = u32::from_le_bytes(bytes[9..13].try_into().unwrap()) as usize;
    let marker = HDR + first_len + CRC;
    assert_eq!(bytes[marker], BATCH_COMPLETE_TAG);
    bytes[marker + 1..marker + 9].copy_from_slice(&8u64.to_le_bytes());
    let marker_len =
        u32::from_le_bytes(bytes[marker + 9..marker + 13].try_into().unwrap()) as usize;
    let checksum_at = marker + HDR + marker_len;
    let checksum = crc32fast::hash(&bytes[marker..checksum_at]);
    bytes[checksum_at..checksum_at + CRC].copy_from_slice(&checksum.to_le_bytes());

    assert_eq!(
        replay(&bytes).err(),
        Some(WalError::MarkerSequence),
        "marker sequence mismatch must refuse"
    );
}

#[test]
fn checksum_valid_malformed_current_frames_are_refused() {
    let cases: &[(u8, &[u8])] = &[
        (BATCH_COMPLETE_TAG, &[0x80]), // unterminated varint
        (BATCH_COMPLETE_TAG, &[0, 0]), // trailing byte
        (TOMB_TAG, &[0xff]),           // invalid UTF-8
        (TOMB_TAG, b""),               // empty id
        (RECORD_TAG, &[0]),            // empty id followed by a truncated content count
    ];
    for (index, &(tag, payload)) in cases.iter().enumerate() {
        let mut file = Vec::new();
        let mut wal = fresh();
        wal.append_frame(tag, 1, payload).unwrap();
        written(&mut wal, &mut file);
        assert!(
            replay(&file).is_err(),
            "checksum-valid malformed frame case {index} must be corruption, not a torn tail"
        );
    }
}

#[test]
fn truncate_empties_the_log() {
    let (r, novel) = rec();
    let mut file = Vec::new();
    let mut w = fresh();
    w.append(1, &r, &novel).unwrap();
    written(&mut w, &mut file);
    assert!(w.bytes() > 0);
    w.truncate();
    file.clear();
    assert_eq!(w.bytes(), 0);
    assert_eq!(w.frame_count(), 0);
    assert!(replay(&file).unwrap().is_empty());
}

#[test]
fn every_cut_of_a_log_replays_whole_entries_only() {
    let (r, novel) = rec();
    let mut file = Vec::new();
    let mut ends = Vec::new();
    let mut w = fresh();
    for s in 1..=3 {
        w.append(s, &r, &novel).unwrap();
        written(&mut w, &mut file);
        ends.push(file.len());
    }
    for cut in 0..=file.len() {
        let whole = ends.iter().filter(|end| **end <= cut).count();
        assert_eq!(replay(&file[..cut]).unwrap().len(), whole);
    }
}

#[test]
fn unknown_tags_and_exhausted_frame_counts_are_refused() {
    let mut file = Vec::new();
    let mut wal = fresh();
    wal.append_frame(0x11, 1, b"x").unwrap();
    written(&mut wal, &mut file);
    assert_eq!(replay(&file).err(), Some(WalError::UnknownTag(0x11)));

    let few = ReadLimits { max_wal_frames: 1, ..ReadLimits::default() };
    let (mut wal, _) = Wal::open_recovered(few, 0, 0, 0).unwrap();
    wal.append_tomb(1, "a").unwrap();
    assert_eq!(
        wal.append_tomb(1, "b"),
        Err(WalError::Admission(ReadAdmissionError::TooManyWalFrames { actual: 2, allowed: 1 }))
    );
    assert_eq!(wal.frame_count(), 1);
}

#[test]
fn a_frame_ends_in_the_checksum_of_its_bytes() {
    let mut file = Vec::new();
    let mut wal = fresh();
    wal.append_tomb(3, "gone").unwrap();
    written(&mut wal, &mut file);
    assert_eq!(file.len(), HDR + 4 + CRC);
    assert_eq!(file[0], TOMB_TAG);
    assert_eq!(file[1..9], 3u64.to_le_bytes());
    assert_eq!(file[9..13], 4u32.to_le_bytes());
    assert_eq!(&file[13..17], b"gone");
    assert_eq!(file[17..21], crc32fast::hash(&file[..17]).to_le_bytes());
    assert_eq!(crc32(b"123456789"), 0xcbf4_3926);
}

#[test]
fn varints_have_one_spelling() {
    for n in [0, 1, 127, 128, 16_383, 16_384, u32::MAX as u64, u64::MAX] {
        let mut b = Vec::new();
        put_varint(&mut b, n);
        let mut at = 0;
        assert_eq!(get_varint(&b, &mut at), Ok(n));
        assert_eq!(at, b.len());
    }
    let mut b = Vec::new();
    put_varint(&mut b, 300);
    assert_eq!(b, vec![0xac, 0x02]);
    let mut at = 0;
    assert!(matches!(get_varint(&[0x80], &mut at), Err(VarintError::Truncated)));
}

#[test]
fn records_say_what_is_wrong_with_them() {
    let (mut r, novel) = rec();
    r.contents[0].identity = None;
    let mut b = Vec::new();
    assert_eq!(encode_record(&mut b, &r, &novel), Err(WireError::MissingIdentity));

    let (r, mut novel) = rec();
    novel[0].1.push(0);
    assert_eq!(encode_record(&mut b, &r, &novel), Err(WireError::NovelMismatch));

    let (r, mut novel) = rec();
    let again = novel[0].clone();
    novel.push(again);
    assert_eq!(encode_record(&mut b, &r, &novel), Err(WireError::DuplicateNovel));

    let (mut r, novel) = rec();
    if let ContentOp::Piece { hash: _, len } = &mut r.contents[0].ops[1] {
        *len += 1;
    }
    assert_eq!(encode_record(&mut b, &r, &novel), Err(WireError::PieceLength));

    let (r, novel) = rec();
    let mut b = Vec::new();
    encode_record(&mut b, &r, &novel).unwrap();
    b.push(0);
    assert_eq!(decode_record(&b).unwrap_err(), WireError::TrailingBytes);
}

#[test]
fn a_full_buffer_is_written_out_before_the_next_frame() {
    let mut wal = fresh();
    assert!(!wal.flush_due(BUF_FLUSH), "an empty buffer is never due");
    wal.append_tomb(1, "id").unwrap();
    let held = HDR + 2 + CRC;
    assert!(!wal.flush_due(BUF_FLUSH - held - HDR - CRC - 1));
    assert!(wal.flush_due(BUF_FLUSH - held - HDR - CRC));
    assert!(wal.flush_due(usize::MAX));
}
