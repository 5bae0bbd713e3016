use zwf::bmap::{BitmapBody, BitmapEncoding};
use zwf::chrs::{CharacterEntry, CharacterKind, Characters};
use zwf::chunk::flags as chunk_flags;
use zwf::chunk::{align_up, Chunk, ChunkHeader, ChunkId, Codec, Payload};
use zwf::crc32::checksum;
use zwf::header::flags as file_flags;
use zwf::header::{Header, HEADER_SIZE, SUPPORTED_VERSION_MAJOR};
use zwf::mclip::{DictionaryEntry, LoopData, MovieClipBody, PlaceFilter, PlaceObject};
use zwf::reader::{Archive, ArchiveWriter, ChunkReader};
use zwf::shap::ShapeBody;
use zwf::stage::Stage;
use zwf::vids::{VideoBody, VideoEncoding};
use zwf::Error;

fn f(x: f32) -> u32 {
    x.to_bits()
}

fn sample_header() -> Header {
    Header {
        version_major: 0,
        version_minor: 1,
        flags: file_flags::STREAMABLE,
        header_size: HEADER_SIZE,
        chunk_count: 4,
        file_size: HEADER_SIZE as u64,
    }
}

/// A file with every required chunk.
fn minimal_file() -> Vec<u8> {
    let mut writer = ArchiveWriter::new(file_flags::STREAMABLE);
    writer.push_raw(ChunkId::meta(), br#"{"tool":"zukbox/0.1.0"}"#, 0);
    writer.push_raw(ChunkId::stag(), &[0u8; 24], 0);
    writer.push_raw(ChunkId::chrs(), &0u32.to_le_bytes(), 0);
    writer.push_raw(ChunkId::mclp(), &[], 0);
    writer.finish()
}

// ---- crc32 ----

#[test]
fn known_vectors() {
    assert_eq!(checksum(b""), 0x0000_0000);
    assert_eq!(checksum(b"a"), 0xE8B7_BE43);
    assert_eq!(checksum(b"123456789"), 0xCBF4_3926);
}

#[test]
fn crc_of_longer_text() {
    assert_eq!(
        checksum(b"The quick brown fox jumps over the lazy dog"),
        0x414F_A339
    );
}

// ---- header ----

#[test]
fn header_round_trip() {
    let header = sample_header();
    let bytes = header.to_bytes();
    assert_eq!(Header::parse(&bytes).unwrap(), header);
}

#[test]
fn rejects_short_input() {
    assert_eq!(Header::parse(&[0u8; 8]), Err(Error::TooShort));
}

#[test]
fn rejects_bad_magic() {
    let mut bytes = sample_header().to_bytes();
    bytes[0] = b'X';
    assert_eq!(Header::parse(&bytes), Err(Error::BadMagic));
}

#[test]
fn rejects_corrupted_byte() {
    let mut bytes = sample_header().to_bytes();
    bytes[12] ^= 0xFF;
    assert_eq!(Header::parse(&bytes), Err(Error::HeaderCrcMismatch));
}

#[test]
fn rejects_future_major_version() {
    let mut header = sample_header();
    header.version_major = SUPPORTED_VERSION_MAJOR + 1;
    let bytes = header.to_bytes();
    assert!(matches!(
        Header::parse(&bytes),
        Err(Error::UnsupportedVersion { .. })
    ));
}

#[test]
fn rejects_length_mismatch() {
    let mut header = sample_header();
    header.file_size = 4096;
    let bytes = header.to_bytes();
    assert!(matches!(
        Header::parse(&bytes),
        Err(Error::LengthMismatch { .. })
    ));
}

#[test]
fn header_errors_carry_their_values() {
    let mut header = sample_header();
    header.version_major = 3;
    header.version_minor = 7;
    assert_eq!(
        Header::parse(&header.to_bytes()),
        Err(Error::UnsupportedVersion { major: 3, minor: 7 })
    );
    let mut header = sample_header();
    header.header_size = 40;
    assert_eq!(Header::parse(&header.to_bytes()), Err(Error::BadHeaderSize(40)));
    let mut header = sample_header();
    header.file_size = 4096;
    assert_eq!(
        Header::parse(&header.to_bytes()),
        Err(Error::LengthMismatch { declared: 4096, actual: 32 })
    );
}

#[test]
fn header_crc_is_checked_before_version() {
    let mut header = sample_header();
    header.version_major = 9;
    let mut bytes = header.to_bytes();
    bytes[20] ^= 1;
    assert_eq!(Header::parse(&bytes), Err(Error::HeaderCrcMismatch));
}

#[test]
fn header_flag_queries() {
    let mut header = sample_header();
    header.flags = file_flags::SIGNED | file_flags::ATLAS_PACKED;
    assert!(header.is_signed());
    assert!(!header.is_streamable());
    assert!(header.is_atlas_packed());
    let bytes = header.to_bytes();
    assert_eq!(&bytes[0..4], b"ZWF1");
    assert_eq!(u32::from_le_bytes([bytes[28], bytes[29], bytes[30], bytes[31]]), checksum(&bytes[0..28]));
}

// ---- chunk ----

#[test]
fn alignment_rounds_up() {
    assert_eq!(align_up(0), 0);
    assert_eq!(align_up(1), 4);
    assert_eq!(align_up(4), 4);
    assert_eq!(align_up(5), 8);
}

#[test]
fn fourcc_prints_readably() {
    assert_eq!(ChunkId::mclp().as_str(), "MCLP");
    assert_eq!(ChunkId(*b"SND ").as_str(), "SND ");
}

#[test]
fn fourcc_that_is_not_utf8_prints_placeholder() {
    assert_eq!(ChunkId([0xFF, 0xFE, 0x41, 0x42]).as_str(), "????");
}

#[test]
fn codec_rejects_unknown() {
    assert_eq!(Codec::from_u8(0), Some(Codec::Raw));
    assert_eq!(Codec::from_u8(1), Some(Codec::Deflate));
    assert_eq!(Codec::from_u8(9), None);
}

#[test]
fn chunk_ids_spell_their_names() {
    let all = [
        (ChunkId::meta(), b"META"),
        (ChunkId::stag(), b"STAG"),
        (ChunkId::symb(), b"SYMB"),
        (ChunkId::chrs(), b"CHRS"),
        (ChunkId::mclp(), b"MCLP"),
        (ChunkId::shap(), b"SHAP"),
        (ChunkId::bmap(), b"BMAP"),
        (ChunkId::atls(), b"ATLS"),
        (ChunkId::snds(), b"SNDS"),
        (ChunkId::vids(), b"VIDS"),
        (ChunkId::scpt(), b"SCPT"),
        (ChunkId::sign(), b"SIGN"),
    ];
    for (id, name) in all {
        assert_eq!(&id.0, name);
    }
    let required = ChunkId::required();
    assert_eq!(required[0], (ChunkId::meta(), "META"));
    assert_eq!(required[3], (ChunkId::mclp(), "MCLP"));
}

#[test]
fn chunk_header_bytes() {
    let header = ChunkHeader {
        id: ChunkId::stag(),
        codec: 1,
        flags: chunk_flags::HAS_CRC | chunk_flags::SKIPPABLE,
        stored_size: 0x0102_0304,
        origin_size: 24,
    };
    assert!(header.has_crc());
    assert!(header.is_skippable());
    assert_eq!(
        header.to_bytes(),
        [b'S', b'T', b'A', b'G', 1, 3, 0, 0, 4, 3, 2, 1, 24, 0, 0, 0]
    );
}

fn loose_chunk<'a>(codec: u8, flags: u8, stored: &'a [u8], origin_size: u32, crc: Option<u32>) -> Chunk<'a> {
    Chunk {
        header: ChunkHeader {
            id: ChunkId::meta(),
            codec,
            flags,
            stored_size: stored.len() as u32,
            origin_size,
        },
        stored,
        offset: 0,
        crc,
    }
}

#[test]
fn deflate_payload_is_inflated() {
    let original = b"ZWF ZWF ZWF ZWF ZWF ZWF ZWF ZWF deflate me please".to_vec();
    let compressed = miniz_oxide::deflate::compress_to_vec(&original, 6);
    assert_ne!(compressed, original);
    let chunk = loose_chunk(1, chunk_flags::HAS_CRC, &compressed, original.len() as u32, Some(checksum(&original)));
    let payload = chunk.payload().unwrap();
    assert_eq!(payload.as_slice(), &original[..]);
    assert!(matches!(payload, Payload::Owned(_)));
}

#[test]
fn deflate_payload_over_its_limit_fails() {
    let original = vec![7u8; 100];
    let compressed = miniz_oxide::deflate::compress_to_vec(&original, 6);
    let chunk = loose_chunk(1, 0, &compressed, 10, None);
    assert_eq!(chunk.payload(), Err(Error::DecompressFailed));
}

#[test]
fn deflate_output_shorter_than_origin_size_fails() {
    let original = vec![7u8; 100];
    let compressed = miniz_oxide::deflate::compress_to_vec(&original, 6);
    let chunk = loose_chunk(1, 0, &compressed, 101, None);
    assert_eq!(chunk.payload(), Err(Error::DecompressFailed));
}

#[test]
fn broken_deflate_data_fails() {
    let chunk = loose_chunk(1, 0, &[0xFF, 0xFF, 0xFF], 10, None);
    assert_eq!(chunk.payload(), Err(Error::DecompressFailed));
}

#[test]
fn payload_errors() {
    let data = [1u8, 2, 3];
    assert_eq!(loose_chunk(7, 0, &data, 3, None).payload(), Err(Error::UnknownCodec(7)));
    assert_eq!(loose_chunk(0, 0, &data, 4, None).payload(), Err(Error::SizeMismatch));
    assert_eq!(
        loose_chunk(0, chunk_flags::HAS_CRC, &data, 3, None).payload(),
        Err(Error::TruncatedChunk)
    );
    assert_eq!(
        loose_chunk(0, chunk_flags::HAS_CRC, &data, 3, Some(checksum(&data) ^ 1)).payload(),
        Err(Error::DecompressFailed)
    );
    assert_eq!(
        loose_chunk(0, chunk_flags::HAS_CRC, &data, 3, Some(checksum(&data))).payload(),
        Ok(Payload::Borrowed(&data[..]))
    );
}

// ---- reader ----

#[test]
fn parses_minimal_file() {
    let bytes = minimal_file();
    let archive = Archive::parse(&bytes).unwrap();
    assert_eq!(archive.header.chunk_count, 4);
    assert!(archive.header.is_streamable());
    assert_eq!(archive.chunks.len(), 4);
    assert_eq!(
        archive.find(ChunkId::meta()).unwrap().payload().unwrap().as_slice(),
        br#"{"tool":"zukbox/0.1.0"}"#
    );
}

#[test]
fn every_chunk_starts_aligned() {
    let bytes = minimal_file();
    let archive = Archive::parse(&bytes).unwrap();
    for chunk in &archive.chunks {
        assert_eq!(chunk.offset % 4, 0, "{:?} is misaligned", chunk.id());
    }
}

#[test]
fn verifies_chunk_crc() {
    let mut writer = ArchiveWriter::new(0);
    writer.push_raw(ChunkId::meta(), b"{}", chunk_flags::HAS_CRC);
    writer.push_raw(ChunkId::stag(), &[0u8; 24], 0);
    writer.push_raw(ChunkId::chrs(), &0u32.to_le_bytes(), 0);
    writer.push_raw(ChunkId::mclp(), &[], 0);
    let bytes = writer.finish();
    let archive = Archive::parse(&bytes).unwrap();
    assert!(archive.find(ChunkId::meta()).unwrap().payload().is_ok());
}

#[test]
fn rejects_missing_required_chunk() {
    let mut writer = ArchiveWriter::new(0);
    writer.push_raw(ChunkId::meta(), b"{}", 0);
    writer.push_raw(ChunkId::stag(), &[0u8; 24], 0);
    let bytes = writer.finish();
    assert!(matches!(
        Archive::parse(&bytes),
        Err(Error::MissingRequiredChunk(_))
    ));
}

#[test]
fn missing_chunk_is_named() {
    let mut writer = ArchiveWriter::new(0);
    writer.push_raw(ChunkId::meta(), b"{}", 0);
    writer.push_raw(ChunkId::stag(), &[0u8; 24], 0);
    let bytes = writer.finish();
    assert_eq!(Archive::parse(&bytes).err(), Some(Error::MissingRequiredChunk("CHRS")));
}

#[test]
fn rejects_truncated_chunk() {
    let mut bytes = minimal_file();
    bytes.truncate(bytes.len() - 8);
    let mut header = Header::parse(&minimal_file()).unwrap();
    header.file_size = bytes.len() as u64;
    bytes[..HEADER_SIZE as usize].copy_from_slice(&header.to_bytes());
    assert!(Archive::parse(&bytes).is_err());
}

#[test]
fn truncated_chunk_is_reported_as_such() {
    let mut bytes = minimal_file();
    bytes.truncate(bytes.len() - 8);
    let mut header = Header::parse(&minimal_file()).unwrap();
    header.file_size = bytes.len() as u64;
    bytes[..HEADER_SIZE as usize].copy_from_slice(&header.to_bytes());
    assert_eq!(Archive::parse(&bytes).err(), Some(Error::TruncatedChunk));
}

#[test]
fn chunk_reader_stops_after_failure() {
    let mut bytes = minimal_file();
    bytes.truncate(bytes.len() - 8);
    let mut header = Header::parse(&minimal_file()).unwrap();
    header.file_size = bytes.len() as u64;
    bytes[..HEADER_SIZE as usize].copy_from_slice(&header.to_bytes());
    let header = Header::parse(&bytes).unwrap();
    let mut reader = ChunkReader::new(&bytes, &header);
    let mut ok = 0;
    let mut failures = 0;
    while let Some(item) = reader.next() {
        match item {
            Ok(_) => ok += 1,
            Err(_) => failures += 1,
        }
    }
    assert_eq!(failures, 1);
    assert!(ok < 4);
    assert!(reader.next().is_none());
}

#[test]
fn chunk_reader_yields_chunk_count_items_then_none() {
    let bytes = minimal_file();
    let header = Header::parse(&bytes).unwrap();
    let mut reader = ChunkReader::new(&bytes, &header);
    let mut ids = Vec::new();
    while let Some(item) = reader.next() {
        ids.push(item.unwrap().id());
    }
    assert_eq!(ids, vec![ChunkId::meta(), ChunkId::stag(), ChunkId::chrs(), ChunkId::mclp()]);
    assert!(reader.next().is_none());
}

#[test]
fn writer_output_reads_back() {
    let payloads: [&[u8]; 5] = [b"{}", &[9u8; 24], &0u32.to_le_bytes(), &[1, 2, 3, 4, 5, 6, 7], b"x"];
    let ids = [ChunkId::meta(), ChunkId::stag(), ChunkId::chrs(), ChunkId::mclp(), ChunkId::scpt()];
    let flags = [0, chunk_flags::HAS_CRC, 0, chunk_flags::HAS_CRC, chunk_flags::SKIPPABLE];
    let mut writer = ArchiveWriter::new(file_flags::SIGNED);
    for i in 0..5 {
        writer.push_raw(ids[i], payloads[i], flags[i]);
    }
    let bytes = writer.finish();
    assert_eq!(bytes.len() % 4, 0);
    let archive = Archive::parse(&bytes).unwrap();
    assert_eq!(archive.header.version_minor, 1);
    assert_eq!(archive.header.file_size, bytes.len() as u64);
    assert_eq!(archive.chunks.len(), 5);
    for i in 0..5 {
        let c = &archive.chunks[i];
        assert_eq!(c.id(), ids[i]);
        assert_eq!(c.header.flags, flags[i]);
        assert_eq!(c.stored, payloads[i]);
        let payload = c.payload().unwrap();
        assert_eq!(payload.as_slice(), payloads[i]);
        // A RAW payload is lent from the file, not copied.
        assert_eq!(payload.as_slice().as_ptr(), c.stored.as_ptr());
        assert_eq!(c.crc.is_some(), flags[i] & chunk_flags::HAS_CRC != 0);
    }
    assert_eq!(archive.as_bytes(), &bytes[..]);
}

#[test]
fn signed_range_stops_before_signature() {
    let mut writer = ArchiveWriter::new(file_flags::SIGNED);
    writer.push_raw(ChunkId::meta(), b"{}", 0);
    writer.push_raw(ChunkId::stag(), &[0u8; 24], 0);
    writer.push_raw(ChunkId::chrs(), &0u32.to_le_bytes(), 0);
    writer.push_raw(ChunkId::mclp(), &[], 0);
    writer.push_raw(ChunkId::sign(), &[0u8; 12], 0);
    let bytes = writer.finish();
    let archive = Archive::parse(&bytes).unwrap();
    let signed = archive.signed_range().unwrap();
    let sign_offset = archive.find(ChunkId::sign()).unwrap().offset;
    assert_eq!(signed.len(), sign_offset);
    assert!(signed.len() < bytes.len());
}

#[test]
fn unsigned_file_has_no_signed_range() {
    let bytes = minimal_file();
    let archive = Archive::parse(&bytes).unwrap();
    assert!(archive.signed_range().is_none());
    assert!(archive.find(ChunkId::sign()).is_none());
}

#[test]
fn error_codes_are_stable() {
    let all = [
        (Error::TooShort, -1),
        (Error::BadMagic, -2),
        (Error::HeaderCrcMismatch, -3),
        (Error::UnsupportedVersion { major: 1, minor: 0 }, -4),
        (Error::BadHeaderSize(0), -5),
        (Error::LengthMismatch { declared: 1, actual: 2 }, -6),
        (Error::TruncatedChunk, -7),
        (Error::ChunkCountMismatch { declared: 1, actual: 2 }, -8),
        (Error::UnknownCodec(5), -9),
        (Error::SizeMismatch, -10),
        (Error::DecompressFailed, -11),
        (Error::CodecUnavailable(1), -12),
        (Error::MissingRequiredChunk("META"), -13),
        (Error::MalformedPayload("MCLP"), -14),
    ];
    for (error, code) in all {
        assert_eq!(error.code(), code);
    }
}

// ---- chrs ----

#[test]
fn chrs_round_trip() {
    let characters = Characters {
        entries: vec![
            CharacterEntry { kind: CharacterKind::MovieClip, exported: true, body_offset: 0, body_size: 48 },
            CharacterEntry { kind: CharacterKind::Bitmap, exported: false, body_offset: 0, body_size: 0 },
        ],
    };
    assert_eq!(Characters::parse(&characters.to_bytes()).unwrap(), characters);
}

#[test]
fn rejects_unknown_kind() {
    let mut bytes = vec![1, 0, 0, 0, 99, 0, 0, 0, 0, 0, 0, 0, 0, 0, 0, 0];
    assert_eq!(Characters::parse(&bytes), Err(Error::MalformedPayload("CHRS")));
    bytes[4] = 1;
    assert!(Characters::parse(&bytes).is_ok());
}

#[test]
fn chrs_rejects_short_tables() {
    assert_eq!(Characters::parse(&[1, 0]), Err(Error::MalformedPayload("CHRS")));
    assert_eq!(Characters::parse(&[2, 0, 0, 0, 1, 0, 0, 0, 0, 0, 0, 0, 0, 0, 0, 0]), Err(Error::MalformedPayload("CHRS")));
    let kinds = [
        (1, CharacterKind::MovieClip),
        (2, CharacterKind::Shape),
        (3, CharacterKind::Bitmap),
        (4, CharacterKind::Video),
        (5, CharacterKind::Text),
    ];
    for (code, kind) in kinds {
        assert_eq!(CharacterKind::from_u8(code), Some(kind));
        assert_eq!(kind.to_u8(), code);
    }
    assert_eq!(CharacterKind::from_u8(0), None);
}

// ---- stage ----

#[test]
fn stage_round_trip() {
    let stage = Stage { width: 1280, height: 720, fps_bits: f(30.0), bg_rgba: 0x1E1E_1EFF, root_character_id: 0 };
    assert_eq!(Stage::parse(&stage.to_bytes()).unwrap(), stage);
}

#[test]
fn rejects_short_payload() {
    assert_eq!(Stage::parse(&[0u8; 8]), Err(Error::MalformedPayload("STAG")));
}

#[test]
fn zero_fps_falls_back_to_60() {
    let stage = Stage { width: 1, height: 1, fps_bits: f(0.0), bg_rgba: 0, root_character_id: 0 };
    let duration = 1000.0 / f32::from_bits(stage.frame_rate_bits());
    assert!((duration - 1000.0 / 60.0).abs() < f32::EPSILON);
}

#[test]
fn frame_rate_keeps_positive_values_only() {
    let rate = |fps: f32| f32::from_bits(Stage { width: 1, height: 1, fps_bits: fps.to_bits(), bg_rgba: 0, root_character_id: 0 }.frame_rate_bits());
    assert_eq!(rate(24.0), 24.0);
    assert_eq!(rate(-5.0), 60.0);
    assert_eq!(rate(-0.0), 60.0);
    assert_eq!(rate(f32::NAN), 60.0);
    assert_eq!(rate(f32::INFINITY), f32::INFINITY);
}

// ---- shap ----

#[test]
fn minimal_round_trip() {
    let body = ShapeBody { bounds: [f(0.0), f(100.0), f(0.0), f(50.0)], in_bitmap: false, grid: None, bitmap_id: None, recodes: vec![f(1.0), f(2.0), f(3.0)] };
    assert_eq!(ShapeBody::parse(&body.to_bytes()).unwrap(), body);
}

#[test]
fn optional_fields_round_trip() {
    let body = ShapeBody {
        bounds: [f(-10.0), f(10.0), f(-5.0), f(5.0)],
        in_bitmap: true,
        grid: Some([f(1.0), f(2.0), f(3.0), f(4.0)]),
        bitmap_id: Some(7),
        recodes: vec![f(0.5)],
    };
    assert_eq!(ShapeBody::parse(&body.to_bytes()).unwrap(), body);
}

#[test]
fn shap_parse_at_slice() {
    let body = ShapeBody { bounds: [f(0.0), f(1.0), f(0.0), f(1.0)], in_bitmap: false, grid: None, bitmap_id: None, recodes: vec![] };
    let chunk = [0u8; 4].into_iter().chain(body.to_bytes()).collect::<Vec<_>>();
    assert_eq!(ShapeBody::parse_at(&chunk, 4, body.to_bytes().len() as u32).unwrap(), body);
}

#[test]
fn rejects_truncated_payload() {
    let body = ShapeBody { bounds: [f(0.0), f(1.0), f(0.0), f(1.0)], in_bitmap: false, grid: None, bitmap_id: None, recodes: vec![f(1.0)] };
    let bytes = body.to_bytes();
    assert_eq!(ShapeBody::parse(&bytes[..bytes.len() - 1]), Err(Error::MalformedPayload("SHAP")));
}

#[test]
fn shape_window_past_the_end_is_rejected() {
    assert_eq!(ShapeBody::parse_at(&[0u8; 8], 4, 8), Err(Error::MalformedPayload("SHAP")));
}

// ---- bmap ----

#[test]
fn raw_rgba_round_trip() {
    let body = BitmapBody { bounds: [f(0.0), f(64.0), f(0.0), f(48.0)], encoding: BitmapEncoding::RawRgba8, data: vec![255, 0, 0, 255, 0, 255, 0, 255] };
    assert_eq!(BitmapBody::parse(&body.to_bytes()).unwrap(), body);
}

#[test]
fn png_round_trip() {
    let body = BitmapBody { bounds: [f(0.0), f(10.0), f(0.0), f(10.0)], encoding: BitmapEncoding::Png, data: vec![0x89, 0x50, 0x4E, 0x47, 0x0D, 0x0A, 0x1A, 0x0A] };
    assert_eq!(BitmapBody::parse(&body.to_bytes()).unwrap(), body);
}

#[test]
fn bmap_parse_at_slice() {
    let body = BitmapBody { bounds: [f(0.0), f(1.0), f(0.0), f(1.0)], encoding: BitmapEncoding::Webp, data: vec![1, 2, 3] };
    let chunk = [0u8; 8].into_iter().chain(body.to_bytes()).collect::<Vec<_>>();
    assert_eq!(BitmapBody::parse_at(&chunk, 8, body.to_bytes().len() as u32).unwrap(), body);
}

#[test]
fn bmap_rejects_unknown_encoding() {
    let mut bytes = BitmapBody { bounds: [f(0.0), f(1.0), f(0.0), f(1.0)], encoding: BitmapEncoding::RawRgba8, data: vec![] }.to_bytes();
    bytes[16] = 99;
    assert_eq!(BitmapBody::parse(&bytes), Err(Error::MalformedPayload("BMAP")));
}

#[test]
fn bitmap_data_past_the_end_is_rejected() {
    let mut bytes = BitmapBody { bounds: [0; 4], encoding: BitmapEncoding::Avif, data: vec![1, 2, 3] }.to_bytes();
    bytes[20] = 4;
    assert_eq!(BitmapBody::parse(&bytes), Err(Error::MalformedPayload("BMAP")));
}

// ---- vids ----

#[test]
fn mp4_round_trip() {
    let body = VideoBody { bounds: [f(0.0), f(320.0), f(0.0), f(240.0)], volume_bits: f(0.75), loop_playback: true, auto_play: false, encoding: VideoEncoding::Mp4, data: vec![0x00, 0x00, 0x00, 0x20, 0x66, 0x74, 0x79, 0x70] };
    assert_eq!(VideoBody::parse(&body.to_bytes()).unwrap(), body);
}

#[test]
fn webm_round_trip() {
    let body = VideoBody { bounds: [f(0.0), f(1.0), f(0.0), f(1.0)], volume_bits: f(1.0), loop_playback: false, auto_play: true, encoding: VideoEncoding::Webm, data: vec![0x1A, 0x45, 0xDF, 0xA3] };
    assert_eq!(VideoBody::parse(&body.to_bytes()).unwrap(), body);
}

#[test]
fn vids_parse_at_slice() {
    let body = VideoBody { bounds: [f(0.0), f(1.0), f(0.0), f(1.0)], volume_bits: f(0.5), loop_playback: false, auto_play: false, encoding: VideoEncoding::Ogg, data: vec![0x4F, 0x67, 0x67, 0x53] };
    let chunk = [0u8; 12].into_iter().chain(body.to_bytes()).collect::<Vec<_>>();
    assert_eq!(VideoBody::parse_at(&chunk, 12, body.to_bytes().len() as u32).unwrap(), body);
}

#[test]
fn vids_rejects_unknown_encoding() {
    let mut bytes = VideoBody { bounds: [f(0.0), f(1.0), f(0.0), f(1.0)], volume_bits: f(1.0), loop_playback: false, auto_play: false, encoding: VideoEncoding::Mp4, data: vec![] }.to_bytes();
    bytes[21] = 99;
    assert_eq!(VideoBody::parse(&bytes), Err(Error::MalformedPayload("VIDS")));
}

#[test]
fn video_flags_byte() {
    let bytes = VideoBody { bounds: [0; 4], volume_bits: 0, loop_playback: true, auto_play: true, encoding: VideoEncoding::Ogg, data: vec![] }.to_bytes();
    assert_eq!(bytes[20], 3);
    assert_eq!(bytes[21], 2);
    assert_eq!(bytes.len(), 28);
}

// ---- mclip ----

fn empty_timeline() -> MovieClipBody {
    MovieClipBody { total_frame: 1, dictionary: vec![], depth_count: 0, place_objects: vec![], controller: vec![], place_map: vec![] }
}

#[test]
fn empty_timeline_round_trip() {
    let body = empty_timeline();
    assert_eq!(MovieClipBody::parse(&body.to_bytes()).unwrap(), body);
}

#[test]
fn place_object_with_matrix() {
    let body = MovieClipBody {
        total_frame: 2,
        dictionary: vec![DictionaryEntry { character_id: 1, start_frame: 0, end_frame: 1, clip_depth: -1 }],
        depth_count: 1,
        place_objects: vec![PlaceObject { matrix: Some([f(1.0), f(0.0), f(0.0), f(1.0), f(10.0), f(20.0)]), ..Default::default() }],
        controller: vec![0, -1],
        place_map: vec![0, -1],
    };
    let bytes = body.to_bytes();
    assert_eq!(MovieClipBody::parse(&bytes).unwrap(), body);
}

#[test]
fn mclip_parse_at_slice() {
    let body = empty_timeline();
    let chunk = [0u8; 8].into_iter().chain(body.to_bytes()).collect::<Vec<_>>();
    assert_eq!(MovieClipBody::parse_at(&chunk, 8, body.to_bytes().len() as u32).unwrap(), body);
}

#[test]
fn place_object_with_every_part_round_trips() {
    let body = MovieClipBody {
        total_frame: 1,
        dictionary: vec![DictionaryEntry { character_id: 4, start_frame: 1, end_frame: 0, clip_depth: 3 }],
        depth_count: 2,
        place_objects: vec![
            PlaceObject {
                matrix: Some([f(2.0), 0, 0, f(2.0), f(5.0), f(-5.0)]),
                color_transform: Some([f(1.0); 8]),
                blend_mode: Some(12),
                filters: vec![PlaceFilter { class: 1, params: vec![f(4.0), f(4.0), f(1.0)] }, PlaceFilter { class: 5, params: vec![] }],
                loop_data: Some(LoopData { loop_type: 2, start_frame: 3, frame_count: 9 }),
            },
            PlaceObject::default(),
        ],
        controller: vec![0, -1],
        place_map: vec![0, 1],
    };
    assert_eq!(MovieClipBody::parse(&body.to_bytes()).unwrap(), body);
}

#[test]
fn timeline_with_wrong_matrix_size_is_rejected() {
    let mut body = empty_timeline();
    body.depth_count = 1;
    body.controller = vec![0];
    body.place_map = vec![0];
    let mut bytes = body.to_bytes();
    // The controller's length field sits before its one cell and the
    // place map (a length and one cell).
    let at = bytes.len() - 16;
    assert_eq!(bytes[at], 1);
    bytes[at] = 2;
    assert_eq!(MovieClipBody::parse(&bytes), Err(Error::MalformedPayload("MCLP")));
}

#[test]
fn default_place_object_takes_four_bytes() {
    let mut body = empty_timeline();
    body.place_objects = vec![PlaceObject::default()];
    let bytes = body.to_bytes();
    // total, dictionary count, depth, place count, then the placed object:
    // present 0, blend 0, filter count 0u16.
    assert_eq!(&bytes[16..20], &[0u8, 0, 0, 0]);
    assert_eq!(bytes.len(), 28);
    assert_eq!(MovieClipBody::parse(&bytes).unwrap(), body);
}

#[test]
fn place_object_cut_inside_its_filter_count_is_rejected() {
    // total_frame 0, no dictionary, depth 0, one placed object that
    // announces filters and then ends.
    let mut bytes = Vec::new();
    bytes.extend_from_slice(&0u32.to_le_bytes());
    bytes.extend_from_slice(&0u32.to_le_bytes());
    bytes.extend_from_slice(&0u32.to_le_bytes());
    bytes.extend_from_slice(&1u32.to_le_bytes());
    bytes.push(0b1000);
    bytes.push(0);
    assert_eq!(MovieClipBody::parse(&bytes), Err(Error::MalformedPayload("MCLP")));
}

// ---- several chunks together ----

#[test]
fn parses_asset_chunks() {
    let shape = ShapeBody { bounds: [f(0.0), f(100.0), f(0.0), f(50.0)], in_bitmap: false, grid: None, bitmap_id: None, recodes: vec![f(1.0), f(2.0), f(3.0)] };
    let bitmap = BitmapBody { bounds: [f(0.0), f(2.0), f(0.0), f(2.0)], encoding: BitmapEncoding::RawRgba8, data: vec![255, 0, 0, 255, 0, 255, 0, 255, 0, 0, 255, 255, 255, 255, 255, 255] };
    let video = VideoBody { bounds: [f(0.0), f(320.0), f(0.0), f(240.0)], volume_bits: f(0.8), loop_playback: true, auto_play: false, encoding: VideoEncoding::Mp4, data: vec![0, 0, 0, 0x20, 0x66, 0x74, 0x79, 0x70] };

    let shap_payload = shape.to_bytes();
    let bmap_payload = bitmap.to_bytes();
    let vids_payload = video.to_bytes();
    let characters = Characters {
        entries: vec![
            CharacterEntry { kind: CharacterKind::Shape, exported: false, body_offset: 0, body_size: shap_payload.len() as u32 },
            CharacterEntry { kind: CharacterKind::Bitmap, exported: false, body_offset: 0, body_size: bmap_payload.len() as u32 },
            CharacterEntry { kind: CharacterKind::Video, exported: false, body_offset: 0, body_size: vids_payload.len() as u32 },
        ],
    };

    let mut writer = ArchiveWriter::new(file_flags::STREAMABLE);
    writer.push_raw(ChunkId::meta(), b"{}", 0);
    writer.push_raw(ChunkId::stag(), &[0u8; 24], 0);
    writer.push_raw(ChunkId::chrs(), &characters.to_bytes(), 0);
    writer.push_raw(ChunkId::shap(), &shap_payload, 0);
    writer.push_raw(ChunkId::bmap(), &bmap_payload, 0);
    writer.push_raw(ChunkId::mclp(), &[], 0);
    writer.push_raw(ChunkId::vids(), &vids_payload, 0);
    let bytes = writer.finish();

    let archive = Archive::parse(&bytes).unwrap();
    let parsed_characters = Characters::parse(archive.find(ChunkId::chrs()).unwrap().payload().unwrap().as_slice()).unwrap();
    let shap_chunk = archive.find(ChunkId::shap()).unwrap().payload().unwrap();
    let bmap_chunk = archive.find(ChunkId::bmap()).unwrap().payload().unwrap();
    let vids_chunk = archive.find(ChunkId::vids()).unwrap().payload().unwrap();

    assert_eq!(parsed_characters.entries.len(), 3);
    assert_eq!(ShapeBody::parse_at(shap_chunk.as_slice(), parsed_characters.entries[0].body_offset, parsed_characters.entries[0].body_size).unwrap(), shape);
    assert_eq!(BitmapBody::parse_at(bmap_chunk.as_slice(), parsed_characters.entries[1].body_offset, parsed_characters.entries[1].body_size).unwrap(), bitmap);
    assert_eq!(VideoBody::parse_at(vids_chunk.as_slice(), parsed_characters.entries[2].body_offset, parsed_characters.entries[2].body_size).unwrap(), video);
}
