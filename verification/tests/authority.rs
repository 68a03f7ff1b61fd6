//! Manifests and containers: what is authority, and what only looks like it.

use serde_json::Value;
use turndb::container::{Container, Member};
use turndb::store::manifest::{seal_payload, DecodedManifest, Manifest, ManifestError, PartRef};

/// A manifest as a host's JSON encoder writes it.
fn json(m: &Manifest) -> Vec<u8> {
    let mut top = serde_json::Map::new();
    top.insert("draft_epoch".into(), m.draft_epoch.into());
    let parts = m.parts.iter().map(|p| {
        let mut part = serde_json::Map::new();
        part.insert("member".into(), p.member.clone().into());
        part.insert("seq_lo".into(), p.seq_lo.into());
        part.insert("seq_hi".into(), p.seq_hi.into());
        part.insert("records".into(), p.records.into());
        part.insert("b3".into(), p.b3.clone().into());
        Value::Object(part)
    });
    top.insert("parts".into(), Value::Array(parts.collect()));
    top.insert("fold_gen".into(), m.fold_gen.into());
    top.insert("fold_seg".into(), m.fold_seg.into());
    top.insert("fold_off".into(), m.fold_off.into());
    top.insert("next_seq".into(), m.next_seq.into());
    top.insert("commit".into(), m.commit.into());
    let punched = m.punched.iter().map(|(lo, hi)| {
        Value::Array(vec![Value::from(*lo), Value::from(*hi)])
    });
    top.insert("punched".into(), Value::Array(punched.collect()));
    if let Some(prev) = &m.prev {
        top.insert("prev".into(), prev.clone().into());
    }
    serde_json::to_vec(&Value::Object(top)).unwrap()
}

/// A manifest as a host's JSON decoder reads it, refusing what it does not know.
fn decode(payload: &[u8]) -> Option<DecodedManifest> {
    let value: Value = serde_json::from_slice(payload).ok()?;
    let known = [
        "draft_epoch", "parts", "fold_gen", "fold_seg", "fold_off", "next_seq", "commit", "punched",
        "prev",
    ];
    let top = value.as_object()?;
    if top.keys().any(|k| !known.contains(&k.as_str())) {
        return None;
    }
    let number = |name: &str| top.get(name).and_then(Value::as_u64);
    let mut parts = Vec::new();
    for p in top.get("parts")?.as_array()? {
        parts.push(PartRef {
            member: p.get("member")?.as_str()?.to_string(),
            seq_lo: p.get("seq_lo")?.as_u64()?,
            seq_hi: p.get("seq_hi")?.as_u64()?,
            records: p.get("records")?.as_u64()? as u32,
            b3: p.get("b3")?.as_str()?.to_string(),
        });
    }
    let mut punched = Vec::new();
    for r in top.get("punched")?.as_array()? {
        punched.push((r.get(0)?.as_u64()? as u32, r.get(1)?.as_u64()? as u32));
    }
    let manifest = Manifest {
        draft_epoch: number("draft_epoch")? as u8,
        parts,
        fold_gen: number("fold_gen")? as u32,
        fold_seg: number("fold_seg")? as u32,
        fold_off: number("fold_off")? as u32,
        next_seq: number("next_seq")?,
        commit: number("commit")?,
        punched,
        prev: top.get("prev").and_then(Value::as_str).map(String::from),
    };
    let encoded = json(&manifest);
    Some(DecodedManifest { manifest, encoded })
}

/// Parse manifest bytes the way a host does: open the payload, decode it, and hand both over.
fn parse(b: &[u8]) -> Result<Manifest, ManifestError> {
    let decoded = match turndb::store::manifest::open_payload(b) {
        Ok(payload) => decode(payload),
        Err(_) => None,
    };
    Manifest::parse(b, &decoded)
}

fn encode(m: &Manifest) -> Vec<u8> {
    seal_payload(&json(m))
}

fn persisted_manifest() -> Manifest {
    Manifest { commit: 1, fold_off: 48, ..Default::default() }
}

fn manifest_bytes_with_part(member: &str) -> Vec<u8> {
    encode(&Manifest {
        parts: vec![PartRef {
            member: member.into(),
            seq_lo: 1,
            seq_hi: 1,
            records: 1,
            b3: "00".repeat(32),
        }],
        next_seq: 1,
        ..persisted_manifest()
    })
}

#[test]
fn manifest_part_names_cannot_escape_the_store_root() {
    for hostile in
        ["../secret.part", "/absolute/secret.part", "nested/secret.part", "..\\secret.part"]
    {
        let error = parse(&manifest_bytes_with_part(hostile)).unwrap_err();
        assert_eq!(error, ManifestError::PartName { index: 0 }, "{hostile:?}");
    }
    assert!(
        parse(&manifest_bytes_with_part("part-00000001.part")).is_ok(),
        "an ordinary current manifest is accepted"
    );
}

#[test]
fn manifest_semantics_reject_ambiguous_or_malformed_authority() {
    let part = PartRef {
        member: "part-00000001.part".into(),
        seq_lo: 2,
        seq_hi: 1,
        records: 1,
        b3: "00".repeat(32),
    };
    let inverted = Manifest { parts: vec![part.clone()], ..persisted_manifest() };
    assert!(parse(&encode(&inverted)).is_err());

    let duplicate = Manifest {
        parts: vec![
            PartRef { seq_lo: 1, seq_hi: 1, ..part.clone() },
            PartRef { seq_lo: 2, seq_hi: 2, ..part.clone() },
        ],
        ..persisted_manifest()
    };
    assert!(parse(&encode(&duplicate)).is_err());

    let bad_digest = Manifest {
        parts: vec![PartRef {
            seq_lo: 1,
            seq_hi: 1,
            b3: "not-a-blake3-digest".into(),
            ..part
        }],
        ..persisted_manifest()
    };
    assert_eq!(
        parse(&encode(&bad_digest)).err(),
        Some(ManifestError::PartDigest { index: 0 })
    );

    let overlapping = Manifest {
        parts: vec![
            PartRef {
                member: "part-00000001-00000003.part".into(),
                seq_lo: 1,
                seq_hi: 3,
                records: 1,
                b3: "00".repeat(32),
            },
            PartRef {
                member: "part-00000003-00000004.part".into(),
                seq_lo: 3,
                seq_hi: 4,
                records: 1,
                b3: "11".repeat(32),
            },
        ],
        ..persisted_manifest()
    };
    assert_eq!(
        parse(&encode(&overlapping)).err(),
        Some(ManifestError::NotContiguous { expected: 4, found: 3 })
    );

    let stale_cursor = Manifest {
        parts: vec![PartRef {
            member: "part-00000001-00000007.part".into(),
            seq_lo: 1,
            seq_hi: 7,
            records: 1,
            b3: "22".repeat(32),
        }],
        next_seq: 6,
        ..persisted_manifest()
    };
    assert_eq!(
        parse(&encode(&stale_cursor)).err(),
        Some(ManifestError::NextSeq { next_seq: 6, highest: 7 })
    );
    let current_cursor = Manifest { next_seq: 7, ..stale_cursor };
    assert!(parse(&encode(&current_cursor)).is_ok());
    let ahead_cursor = Manifest { next_seq: 8, ..current_cursor };
    assert!(parse(&encode(&ahead_cursor)).is_err());

    let zero_sequence = Manifest {
        parts: vec![PartRef {
            member: "part-00000000.part".into(),
            seq_lo: 0,
            seq_hi: 0,
            records: 0,
            b3: "33".repeat(32),
        }],
        next_seq: 0,
        ..persisted_manifest()
    };
    assert!(parse(&encode(&zero_sequence)).is_err());

    let gap = Manifest {
        parts: vec![
            PartRef {
                member: "part-00000001.part".into(),
                seq_lo: 1,
                seq_hi: 1,
                records: 1,
                b3: "44".repeat(32),
            },
            PartRef {
                member: "part-00000003.part".into(),
                seq_lo: 3,
                seq_hi: 3,
                records: 1,
                b3: "55".repeat(32),
            },
        ],
        next_seq: 3,
        ..persisted_manifest()
    };
    assert!(parse(&encode(&gap)).is_err());

    let punched = Manifest { punched: vec![(5, 9), (9, 12)], ..Default::default() };
    assert!(parse(&encode(&punched)).is_err());
    let punched = Manifest { punched: vec![(5, 9), (9, 12)], ..persisted_manifest() };
    assert_eq!(parse(&encode(&punched)).err(), Some(ManifestError::PunchedRanges));
}

#[test]
fn manifest_origin_and_fold_tail_have_one_canonical_shape() {
    assert_eq!(parse(&encode(&Manifest::default())).err(), Some(ManifestError::CommitZero));
    let origin = persisted_manifest();
    assert!(parse(&encode(&origin)).is_ok());

    let false_origin = Manifest { prev: Some("00".repeat(32)), ..origin.clone() };
    assert_eq!(parse(&encode(&false_origin)).err(), Some(ManifestError::OriginHasPredecessor));
    let missing_predecessor = Manifest { commit: 2, ..origin.clone() };
    assert_eq!(
        parse(&encode(&missing_predecessor)).err(),
        Some(ManifestError::MissingPredecessor { commit: 2 })
    );
    let unsupported_cursor = Manifest { next_seq: 1, ..origin.clone() };
    assert_eq!(
        parse(&encode(&unsupported_cursor)).err(),
        Some(ManifestError::NextSeqWithoutParts)
    );
    let impossible_tail = Manifest { fold_seg: 1, fold_off: 0, ..origin };
    assert_eq!(parse(&encode(&impossible_tail)).err(), Some(ManifestError::NoSegmentHeader));
}

#[test]
fn a_flipped_byte_that_still_parses_is_refused() {
    let m = Manifest { fold_off: 4096, next_seq: 9, ..Default::default() };
    let mut b = encode(&m);
    let at = b.windows(4).position(|w| w == b"4096").expect("fold_off literal in the JSON");
    b[at] = b'1'; // now claims fold_off 1096: valid JSON, wrong bytes
    assert!(matches!(parse(&b), Err(ManifestError::Checksum { .. })));
}

#[test]
fn a_damaged_trailer_is_refused() {
    let mut b = encode(&Manifest::default());
    let at = b.len() - 14; // the 'c' of the final "crc32=XXXXXXXX" line
    b[at] = b'x';
    assert_eq!(
        parse(&b).err(),
        Some(ManifestError::NoTrailer),
        "the required trailer must be exact"
    );
}

#[test]
fn unchecked_or_pre_epoch_manifest_bytes_are_refused() {
    let old = br#"{"parts":[],"fold_seg":0,"fold_off":0,"next_seq":0}"#;
    assert_eq!(
        parse(old).err(),
        Some(ManifestError::NoTrailer),
        "bare JSON is not a current manifest"
    );

    let current = Manifest { draft_epoch: 0, ..Default::default() };
    assert_eq!(parse(&encode(&current)).err(), Some(ManifestError::Epoch { found: 0 }));

    let mut value: Value = serde_json::from_slice(&json(&Manifest::default())).unwrap();
    value.as_object_mut().unwrap().insert("discarded_field".into(), true.into());
    let mut unknown = serde_json::to_vec(&value).unwrap();
    let crc = crc32fast::hash(&unknown);
    unknown.extend_from_slice(format!("\ncrc32={crc:08x}").as_bytes());
    assert_eq!(
        parse(&unknown).err(),
        Some(ManifestError::Json),
        "a checksummed unknown field must refuse"
    );
}

#[test]
fn a_payload_that_is_not_canonical_is_refused() {
    let m = persisted_manifest();
    let mut spaced = json(&m);
    spaced.push(b' ');
    assert_eq!(parse(&seal_payload(&spaced)).err(), Some(ManifestError::NotCanonical));
    assert_eq!(parse(&seal_payload(&json(&m))), Ok(m));
}

#[test]
fn generations_and_segments_past_their_names_are_refused() {
    let m = Manifest { fold_gen: 10_000, ..persisted_manifest() };
    assert_eq!(m.check(), Err(ManifestError::FoldGeneration { found: 10_000 }));
    let m = Manifest { fold_seg: 100_000_000, ..persisted_manifest() };
    assert_eq!(m.check(), Err(ManifestError::FoldSegment { found: 100_000_000 }));
    let m = Manifest {
        commit: 2,
        prev: Some("g".repeat(64)),
        ..persisted_manifest()
    };
    assert_eq!(m.check(), Err(ManifestError::PrevDigest));
}

#[test]
fn a_revision_names_the_bytes_it_replaces() {
    let mut m = Manifest { fold_off: 48, ..Default::default() };
    m.next_revision(None).unwrap();
    assert_eq!(m.commit, 1);
    assert_eq!(m.prev, None);
    let first = encode(&m);
    m.next_revision(Some(&first)).unwrap();
    assert_eq!(m.commit, 2);
    assert_eq!(m.prev, Some(blake3::hash(&first).to_hex().to_string()));
    let mut last = Manifest { commit: u64::MAX, ..m };
    assert_eq!(last.next_revision(Some(&first)), Err(ManifestError::RevisionsExhausted));
}

#[test]
fn a_container_keeps_its_members_in_order() {
    let member = |name: &str| Member {
        name: name.into(),
        bytes: Vec::new(),
        checksum: 0,
        manifest: None,
        part: None,
        blocks: None,
    };
    let mut c = Container { seq: 0, members: Vec::new() };
    assert!(c.committed_is_empty_birth());
    for name in ["b", "a", "c", "b"] {
        c.put(member(name));
    }
    let names: Vec<&str> = c.members.iter().map(|m| m.name.as_str()).collect();
    assert_eq!(names, ["a", "b", "c"]);
    assert_eq!(c.find("b"), Some(1));
    assert_eq!(c.find("d"), None);
    assert!(!c.committed_is_empty_birth());
}
