use std::io::Write;

use storyepub::archive::{basename, extract_chapters, parse_i64};
use storyepub::chapters::{match_chapters, ChapterStub};
use storyepub::error::AppError;
use storyepub::lang::{
    get_direction_for_lang_code, get_direction_for_lang_id, get_lang_code, Direction,
};
use storyepub::package::{build_package, story_file_stem, StoryMetadata};
use storyepub::sniff::infer_extension_from_data;

#[test]
fn png_signature_infers_png() {
    let data = [0x89, 0x50, 0x4E, 0x47, 0x0D, 0x0A, 0x1A, 0x0A, 0x00, 0x01];
    assert_eq!(infer_extension_from_data(&data), Some("png"));
}

#[test]
fn jpeg_and_gif_signatures() {
    assert_eq!(infer_extension_from_data(&[0xFF, 0xD8, 0xFF, 0xE0]), Some("jpg"));
    assert_eq!(infer_extension_from_data(&[0x47, 0x49, 0x46, 0x38, 0x39]), Some("gif"));
}

#[test]
fn unknown_signature_is_none() {
    assert_eq!(infer_extension_from_data(&[0x00, 0x01, 0x02, 0x03]), None);
    assert_eq!(infer_extension_from_data(&[]), None);
    assert_eq!(infer_extension_from_data(&[0x89, 0x50]), None);
}

#[test]
fn language_codes_map_as_documented() {
    assert_eq!(get_lang_code(1), "en");
    assert_eq!(get_lang_code(8), "zh-Hant");
    assert_eq!(get_lang_code(16), "ar");
    assert_eq!(get_lang_code(52), "pt-BR");
    assert_eq!(get_lang_code(57), "mr");
    assert_eq!(get_lang_code(0), "en");
    assert_eq!(get_lang_code(9999), "en");
}

#[test]
fn directions_for_rtl_languages() {
    assert_eq!(get_direction_for_lang_id(16), Direction::Rtl);
    assert_eq!(get_direction_for_lang_id(17), Direction::Rtl);
    assert_eq!(get_direction_for_lang_id(31), Direction::Rtl);
    assert_eq!(get_direction_for_lang_id(48), Direction::Rtl);
    assert_eq!(get_direction_for_lang_id(1), Direction::Ltr);
    assert_eq!(get_direction_for_lang_code("ar"), Direction::Rtl);
    assert_eq!(get_direction_for_lang_code("he"), Direction::Rtl);
    assert_eq!(get_direction_for_lang_code("en"), Direction::Ltr);
    assert_eq!(get_direction_for_lang_code(""), Direction::Ltr);
}

#[test]
fn integer_parsing_matches_the_decimal_grammar() {
    assert_eq!(parse_i64(b"42"), Some(42));
    assert_eq!(parse_i64(b"007"), Some(7));
    assert_eq!(parse_i64(b"-5"), Some(-5));
    assert_eq!(parse_i64(b"+9"), Some(9));
    assert_eq!(parse_i64(b"abc"), None);
    assert_eq!(parse_i64(b""), None);
    assert_eq!(parse_i64(b"-"), None);
    assert_eq!(parse_i64(b"4 2"), None);
    assert_eq!(parse_i64(b"9223372036854775807"), Some(i64::MAX));
    assert_eq!(parse_i64(b"9223372036854775808"), None);
    assert_eq!(parse_i64(b"-9223372036854775808"), Some(i64::MIN));
    assert_eq!(parse_i64(b"-9223372036854775809"), None);
    assert_eq!(parse_i64(b"99999999999999999999999"), None);
}

#[test]
fn basenames_take_the_last_segment() {
    assert_eq!(basename(b"a/b/42"), b"42");
    assert_eq!(basename(b"42"), b"42");
    assert_eq!(basename(b"dir/"), b"");
    assert_eq!(basename(b"/7"), b"7");
}

fn zip_with_entries(entries: &[(&str, &str)]) -> Vec<u8> {
    let cursor = std::io::Cursor::new(Vec::new());
    let mut writer = zip::ZipWriter::new(cursor);
    let options = zip::write::SimpleFileOptions::default();
    for (name, contents) in entries {
        writer.start_file(*name, options).unwrap();
        writer.write_all(contents.as_bytes()).unwrap();
    }
    writer.finish().unwrap().into_inner()
}

#[test]
fn archive_entries_joined_in_metadata_order() {
    let bytes = zip_with_entries(&[
        ("42", "<p>forty-two</p>"),
        ("abc", "<p>ignored</p>"),
        ("7", "<p>seven</p>"),
    ]);
    let map = extract_chapters(&bytes).unwrap();
    assert_eq!(map.len(), 2);
    let stubs = vec![
        ChapterStub { id: Some(7), title: Some("Seven".to_string()) },
        ChapterStub { id: Some(42), title: Some("FortyTwo".to_string()) },
        ChapterStub { id: Some(99), title: Some("Gone".to_string()) },
    ];
    let matched = match_chapters(&stubs, map);
    assert_eq!(matched.len(), 2);
    assert_eq!(matched[0].id, 7);
    assert_eq!(matched[0].html, b"<p>seven</p>".to_vec());
    assert_eq!(matched[1].id, 42);
    assert_eq!(matched[1].html, b"<p>forty-two</p>".to_vec());
}

#[test]
fn duplicate_archive_id_keeps_the_last_entry() {
    let bytes = zip_with_entries(&[("5", "first"), ("x/5", "second")]);
    let mut map = extract_chapters(&bytes).unwrap();
    assert_eq!(map.len(), 1);
    assert_eq!(map.remove(5), Some(b"second".to_vec()));
}

#[test]
fn garbage_archive_bytes_are_fatal() {
    match extract_chapters(b"this is not a zip archive") {
        Ok(_) => panic!("garbage bytes must not parse as an archive"),
        Err(e) => assert_eq!(e, AppError::IoError),
    }
}

#[test]
fn nested_entry_names_use_their_basename() {
    let bytes = zip_with_entries(&[("story/parts/11", "<p>eleven</p>")]);
    let mut map = extract_chapters(&bytes).unwrap();
    assert_eq!(map.remove(11), Some(b"<p>eleven</p>".to_vec()));
}

fn zip_with_raw_entries(entries: &[(&str, &[u8])]) -> Vec<u8> {
    let cursor = std::io::Cursor::new(Vec::new());
    let mut writer = zip::ZipWriter::new(cursor);
    let options = zip::write::SimpleFileOptions::default();
    for (name, contents) in entries {
        writer.start_file(*name, options).unwrap();
        writer.write_all(contents).unwrap();
    }
    writer.finish().unwrap().into_inner()
}

#[test]
fn skipped_entries_are_never_decoded() {
    let bytes = zip_with_raw_entries(&[
        ("notes.bin", &[0xFF, 0xFE, 0x80, 0x80]),
        ("7", b"<p>seven</p>"),
    ]);
    let mut map = extract_chapters(&bytes).unwrap();
    assert_eq!(map.len(), 1);
    assert_eq!(map.remove(7), Some(b"<p>seven</p>".to_vec()));
}

#[test]
fn invalid_text_in_a_chapter_entry_is_fatal() {
    let bytes = zip_with_raw_entries(&[("7", &[0xFF, 0xFE, 0x80, 0x80])]);
    match extract_chapters(&bytes) {
        Ok(_) => panic!("a chapter entry that is not UTF-8 must be fatal"),
        Err(e) => assert_eq!(e, AppError::IoError),
    }
}

#[test]
fn output_stem_sanitizes_the_title() {
    let stem = story_file_stem(42, "My: Story?");
    assert_eq!(stem, "42-My_ Story_".to_string());
}

#[test]
fn package_resolves_defaults_language_and_order() {
    let story = StoryMetadata {
        title: None,
        author: None,
        description: None,
        language_id: Some(17),
        cover_url: None,
        chapters: Vec::new(),
    };
    let request = build_package(9, &story, Vec::new(), 3);
    assert_eq!(request.title, "Untitled Story".to_string());
    assert_eq!(request.author, "Unknown Author".to_string());
    assert_eq!(request.description, "".to_string());
    assert_eq!(request.language_code, "he");
    assert_eq!(request.direction, Direction::Rtl);
    assert_eq!(request.dropped_chapters, 3);
    assert!(request.output_stem.starts_with("9-"));
}

#[test]
fn error_messages_name_their_failure() {
    assert_eq!(
        AppError::MetadataFetchFailed.message(),
        "Failed to fetch story metadata"
    );
    assert_eq!(
        AppError::ChapterProcessingFailed.message(),
        "Failed to process chapter content"
    );
    assert_eq!(AppError::DownloadFailed.message(), "Failed to download story content");
}
