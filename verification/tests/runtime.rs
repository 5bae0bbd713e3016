use zwf::abi::{
    zwf_character_count, zwf_character_kind, zwf_chunk_count, zwf_chunk_id_at, zwf_eval_frame,
    zwf_file_flags, zwf_mclip_total_frame, zwf_open_count, zwf_render_item_stride,
    zwf_root_character_id, zwf_spec_version, zwf_stage_bg_rgba, zwf_stage_fps,
    zwf_stage_height, zwf_stage_width, BAD_ARGUMENT, BAD_BUFFER, BAD_HANDLE, NOT_A_MOVIE_CLIP,
};
use zwf::chrs::{CharacterEntry, CharacterKind, Characters};
use zwf::chunk::ChunkId;
use zwf::header::flags as file_flags;
use zwf::mclip::{DictionaryEntry, MovieClipBody, PlaceObject};
use zwf::reader::ArchiveWriter;
use zwf::registry::{close, instance, last_error, movie_clip_body, open, open_count, slot_count, with, Registry};
use zwf::stage::Stage;
use zwf::timeline::{
    evaluate_frame, render_buffer_len, FrameError, IDENTITY_COLOR_TRANSFORM, IDENTITY_MATRIX,
    RENDER_ITEM_FLOATS,
};
use zwf::Error;

fn f(x: f32) -> u32 {
    x.to_bits()
}

fn sample_file() -> Vec<u8> {
    let stage = Stage {
        width: 1280,
        height: 720,
        fps_bits: f(24.0),
        bg_rgba: 0x1E1E_1EFF,
        root_character_id: 0,
    };

    let mut writer = ArchiveWriter::new(file_flags::STREAMABLE);
    writer.push_raw(ChunkId::meta(), br#"{"tool":"zukbox/0.1.0"}"#, 0);
    writer.push_raw(ChunkId::stag(), &stage.to_bytes(), 0);
    writer.push_raw(ChunkId::chrs(), &0u32.to_le_bytes(), 0);
    writer.push_raw(ChunkId::mclp(), &[], 0);
    writer.finish()
}

fn open_sample(reg: &mut Registry) -> i32 {
    open(reg, sample_file())
}

#[test]
fn opens_and_reads_stage() {
    let mut reg = Registry::new();
    let handle = open_sample(&mut reg);
    assert!(handle >= 0, "open failed with {handle}");

    assert_eq!(zwf_stage_width(&mut reg, handle), 1280);
    assert_eq!(zwf_stage_height(&mut reg, handle), 720);
    assert_eq!(f32::from_bits(zwf_stage_fps(&mut reg, handle)), 24.0);
    assert_eq!(zwf_stage_bg_rgba(&mut reg, handle), 0x1E1E_1EFF);
    assert_eq!(last_error(&reg), 0);

    close(&mut reg, handle);
}

#[test]
fn reports_chunks() {
    let mut reg = Registry::new();
    let handle = open_sample(&mut reg);
    assert_eq!(zwf_chunk_count(&mut reg, handle), 4);

    let first = zwf_chunk_id_at(&mut reg, handle, 0).to_le_bytes();
    assert_eq!(&first, b"META");

    assert_eq!(zwf_chunk_id_at(&mut reg, handle, 99), 0);
    assert_eq!(last_error(&reg), BAD_ARGUMENT);

    close(&mut reg, handle);
}

#[test]
fn reports_file_flags() {
    let mut reg = Registry::new();
    let handle = open_sample(&mut reg);
    assert_eq!(zwf_file_flags(&mut reg, handle), 0b10);
    close(&mut reg, handle);
}

#[test]
fn rejects_garbage() {
    let mut reg = Registry::new();
    let handle = open(&mut reg, vec![0xABu8; 64]);

    assert!(handle < 0);
    assert_eq!(handle, last_error(&reg));
    assert_eq!(handle, Error::BadMagic.code());
    assert_eq!(open_count(&reg), 0);
}

#[test]
fn invalid_handle_is_reported_not_panicked() {
    let mut reg = Registry::new();
    assert_eq!(zwf_stage_width(&mut reg, 9999), 0);
    assert_eq!(last_error(&reg), BAD_HANDLE);

    assert_eq!(zwf_chunk_count(&mut reg, -5), BAD_HANDLE);
}

#[test]
fn close_frees_the_slot_and_it_gets_reused() {
    let mut reg = Registry::new();
    let before = open_count(&reg);

    let first = open_sample(&mut reg);
    assert_eq!(open_count(&reg), before + 1);

    close(&mut reg, first);
    assert_eq!(open_count(&reg), before);

    let second = open_sample(&mut reg);
    assert_eq!(second, first);
    close(&mut reg, second);
}

#[test]
fn lowest_free_slot_is_taken_first() {
    let mut reg = Registry::new();
    let a = open_sample(&mut reg);
    let b = open_sample(&mut reg);
    let c = open_sample(&mut reg);
    assert_eq!((a, b, c), (0, 1, 2));
    assert_eq!(zwf_open_count(&reg), 3);

    close(&mut reg, b);
    close(&mut reg, a);
    assert_eq!(open_sample(&mut reg), 0);
    assert_eq!(open_sample(&mut reg), 1);
    assert_eq!(open_sample(&mut reg), 3);
}

#[test]
fn closing_an_unknown_handle_changes_nothing() {
    let mut reg = Registry::new();
    let handle = open_sample(&mut reg);
    close(&mut reg, 42);
    close(&mut reg, -1);
    assert_eq!(open_count(&reg), 1);
    assert_eq!(zwf_stage_width(&mut reg, handle), 1280);

    close(&mut reg, handle);
    close(&mut reg, handle);
    assert_eq!(open_count(&reg), 0);
    assert_eq!(zwf_stage_width(&mut reg, handle), 0);
    assert_eq!(last_error(&reg), BAD_HANDLE);
}

#[test]
fn spec_version_is_reported() {
    assert_eq!(zwf_spec_version(), 1);
}

#[test]
fn render_item_stride_is_seventeen() {
    assert_eq!(zwf_render_item_stride(), RENDER_ITEM_FLOATS as u32);
    assert_eq!(zwf_render_item_stride(), 17);
}

fn timeline_body() -> MovieClipBody {
    MovieClipBody {
        total_frame: 1,
        dictionary: vec![DictionaryEntry {
            character_id: 1,
            start_frame: 0,
            end_frame: 1,
            clip_depth: -1,
        }],
        depth_count: 1,
        place_objects: vec![PlaceObject {
            matrix: Some([f(1.0), f(0.0), f(0.0), f(1.0), f(100.0), f(50.0)]),
            ..Default::default()
        }],
        controller: vec![0],
        place_map: vec![0],
    }
}

fn timeline_file() -> Vec<u8> {
    let body = timeline_body();

    let characters = Characters {
        entries: vec![CharacterEntry {
            kind: CharacterKind::MovieClip,
            exported: true,
            body_offset: 0,
            body_size: body.to_bytes().len() as u32,
        }],
    };

    let stage = Stage {
        width: 640,
        height: 480,
        fps_bits: f(12.0),
        bg_rgba: 0x0000_00ff,
        root_character_id: 0,
    };

    let mut writer = ArchiveWriter::new(file_flags::STREAMABLE);
    writer.push_raw(ChunkId::meta(), b"{}", 0);
    writer.push_raw(ChunkId::stag(), &stage.to_bytes(), 0);
    writer.push_raw(ChunkId::chrs(), &characters.to_bytes(), 0);
    writer.push_raw(ChunkId::mclp(), &body.to_bytes(), 0);
    writer.finish()
}

#[test]
fn eval_frame_writes_render_list() {
    assert_eq!(zwf_render_item_stride(), RENDER_ITEM_FLOATS as u32);

    let mut reg = Registry::new();
    let handle = open(&mut reg, timeline_file());
    assert!(handle >= 0);

    let (count, _) = zwf_eval_frame(&mut reg, handle, 0, 0, false, 0);
    assert_eq!(count, 1);
    assert_eq!(last_error(&reg), 0);

    let (written, items) =
        zwf_eval_frame(&mut reg, handle, 0, 0, true, RENDER_ITEM_FLOATS as u32);
    assert_eq!(written, 1);
    assert_eq!(items.len(), 1);
    assert_eq!(items[0].depth, 0);
    assert_eq!(items[0].character_id, 1);
    assert_eq!(f32::from_bits(items[0].matrix[0]), 1.0);
    assert_eq!(f32::from_bits(items[0].matrix[3]), 1.0);
    assert_eq!(f32::from_bits(items[0].matrix[4]), 100.0);
    assert_eq!(f32::from_bits(items[0].matrix[5]), 50.0);
    assert_eq!(items[0].color_transform, IDENTITY_COLOR_TRANSFORM);
    assert_eq!(items[0].blend_mode, 0);

    close(&mut reg, handle);
}

#[test]
fn eval_frame_rejects_out_of_range() {
    let mut reg = Registry::new();
    let handle = open(&mut reg, timeline_file());
    let (code, _) = zwf_eval_frame(&mut reg, handle, 0, 9, false, 0);
    assert_eq!(code, BAD_ARGUMENT);
    assert_eq!(last_error(&reg), BAD_ARGUMENT);
    close(&mut reg, handle);
}

#[test]
fn eval_frame_reports_a_small_buffer() {
    let mut reg = Registry::new();
    let handle = open(&mut reg, timeline_file());
    let (code, _) = zwf_eval_frame(&mut reg, handle, 0, 0, true, 16);
    assert_eq!(code, BAD_BUFFER);
    assert_eq!(last_error(&reg), BAD_BUFFER);
    close(&mut reg, handle);
}

#[test]
fn eval_frame_on_a_bad_handle_or_character() {
    let mut reg = Registry::new();
    let (code, _) = zwf_eval_frame(&mut reg, 3, 0, 0, false, 0);
    assert_eq!(code, BAD_HANDLE);

    let handle = open(&mut reg, timeline_file());
    let (code, items) = zwf_eval_frame(&mut reg, handle, 5, 0, false, 0);
    assert_eq!(code, BAD_ARGUMENT);
    assert!(items.is_empty());
    close(&mut reg, handle);
}

#[test]
fn character_queries() {
    let mut reg = Registry::new();
    let handle = open(&mut reg, timeline_file());
    assert_eq!(zwf_character_count(&mut reg, handle), 1);
    assert_eq!(zwf_character_kind(&mut reg, handle, 0), 1);
    assert_eq!(zwf_character_kind(&mut reg, handle, 1), 0);
    assert_eq!(last_error(&reg), BAD_ARGUMENT);
    assert_eq!(zwf_mclip_total_frame(&mut reg, handle, 0), 1);
    assert_eq!(zwf_mclip_total_frame(&mut reg, handle, 7), -1);
    assert_eq!(NOT_A_MOVIE_CLIP, -1);
    assert_eq!(last_error(&reg), BAD_ARGUMENT);
    assert_eq!(zwf_root_character_id(&mut reg, handle), 0);
    assert_eq!(zwf_character_kind(&mut reg, 77, 0), BAD_HANDLE);
    close(&mut reg, handle);
}

fn sample_body() -> MovieClipBody {
    MovieClipBody {
        total_frame: 2,
        dictionary: vec![DictionaryEntry {
            character_id: 7,
            start_frame: 0,
            end_frame: 2,
            clip_depth: -1,
        }],
        depth_count: 1,
        place_objects: vec![PlaceObject {
            matrix: Some([f(1.0), f(0.0), f(0.0), f(1.0), f(100.0), f(50.0)]),
            color_transform: Some([f(1.0), f(0.5), f(1.0), f(1.0), f(0.0), f(0.0), f(0.0), f(0.0)]),
            blend_mode: Some(2),
            ..Default::default()
        }],
        controller: vec![0, -1],
        place_map: vec![0, -1],
    }
}

#[test]
fn evaluates_active_depth_on_frame_zero() {
    let items = evaluate_frame(&sample_body(), 0).unwrap();
    assert_eq!(items.len(), 1);
    assert_eq!(items[0].depth, 0);
    assert_eq!(items[0].character_id, 7);
    assert_eq!(items[0].matrix, [f(1.0), f(0.0), f(0.0), f(1.0), f(100.0), f(50.0)]);
    assert_eq!(
        items[0].color_transform,
        [f(1.0), f(0.5), f(1.0), f(1.0), f(0.0), f(0.0), f(0.0), f(0.0)]
    );
    assert_eq!(items[0].blend_mode, 2);
}

#[test]
fn skips_empty_controller_cells() {
    let items = evaluate_frame(&sample_body(), 1).unwrap();
    assert!(items.is_empty());
}

#[test]
fn rejects_out_of_range_frame() {
    assert_eq!(evaluate_frame(&sample_body(), 2), Err(FrameError::OutOfRange));
}

#[test]
fn missing_place_object_gives_identity() {
    let mut body = sample_body();
    body.place_map = vec![-1, -1];
    let items = evaluate_frame(&body, 0).unwrap();
    assert_eq!(items[0].matrix, IDENTITY_MATRIX);
    assert_eq!(items[0].color_transform, IDENTITY_COLOR_TRANSFORM);
    assert_eq!(
        items[0].color_transform,
        [f(1.0), f(1.0), f(1.0), f(1.0), f(0.0), f(0.0), f(0.0), f(0.0)]
    );
    assert_eq!(items[0].blend_mode, 0);
}

#[test]
fn inactive_entries_and_unknown_dictionary_indices_are_skipped() {
    let mut body = sample_body();
    body.dictionary[0].start_frame = 1;
    body.dictionary[0].end_frame = 2;
    assert!(evaluate_frame(&body, 0).unwrap().is_empty());

    // start 1, end 0 keeps an entry active on every frame.
    body.dictionary[0].end_frame = 0;
    assert_eq!(evaluate_frame(&body, 0).unwrap().len(), 1);

    body.controller = vec![3, -1];
    assert!(evaluate_frame(&body, 0).unwrap().is_empty());
}

#[test]
fn render_list_is_in_depth_order() {
    let body = MovieClipBody {
        total_frame: 1,
        dictionary: vec![
            DictionaryEntry { character_id: 4, start_frame: 0, end_frame: 1, clip_depth: -1 },
            DictionaryEntry { character_id: 5, start_frame: 0, end_frame: 1, clip_depth: -1 },
        ],
        depth_count: 3,
        place_objects: vec![],
        controller: vec![1, -1, 0],
        place_map: vec![-1, -1, -1],
    };
    let items = evaluate_frame(&body, 0).unwrap();
    assert_eq!(items.len(), 2);
    assert_eq!((items[0].depth, items[0].character_id), (0, 5));
    assert_eq!((items[1].depth, items[1].character_id), (2, 4));
}

#[test]
fn render_buffer_needs_seventeen_slots_per_item() {
    assert_eq!(render_buffer_len(2, 34), Ok(34));
    assert_eq!(render_buffer_len(2, 100), Ok(34));
    assert_eq!(
        render_buffer_len(2, 33),
        Err(FrameError::BufferTooSmall { needed_floats: 34 })
    );
    assert_eq!(render_buffer_len(0, 0), Ok(0));
}

#[test]
fn with_runs_only_on_open_handles() {
    let mut reg = Registry::new();
    let handle = open(&mut reg, timeline_file());
    assert_eq!(with(&reg, handle, |inst| inst.stage.width), Some(640));
    assert_eq!(with(&reg, handle + 1, |inst| inst.stage.width), None);
    assert_eq!(with(&reg, -1, |inst| inst.chunk_ids.len()), None);
    assert!(instance(&reg, handle).unwrap().is_streamable);
    assert_eq!(slot_count(&reg), 1);

    let inst = instance(&reg, handle).unwrap();
    assert_eq!(movie_clip_body(inst, 0), Ok(timeline_body()));
    assert_eq!(movie_clip_body(inst, 1), Err(BAD_ARGUMENT));

    close(&mut reg, handle);
    assert_eq!(with(&reg, handle, |inst| inst.stage.width), None);
    assert_eq!(slot_count(&reg), 1);
}
