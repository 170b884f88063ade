use storyepub::chapters::{
    chapter_file_name, match_chapters, order_chapters, placeholder_path, process_chapter,
    resolve_images, ChapterStub, FetchOutcome, ImageAsset, ProcessedChapter,
};
use storyepub::error::AppError;
use storyepub::imagemap::ImageMap;
use storyepub::reencode::{re_encode_html, rewrite_and_clean_html};
use storyepub::rewrite::collect_image_urls;

fn clean(html: &[u8], embed: bool, map: &ImageMap) -> Vec<u8> {
    rewrite_and_clean_html(html, embed, map).expect("fragment should pass the strict pass")
}

#[test]
fn scenario_wrapped_break_cleanup() {
    let out = clean(b"<p data-p-id=\"55\"><br></p>", false, &ImageMap::new());
    assert_eq!(out, b"<p><br /></p>".to_vec());
}

#[test]
fn scenario_image_wrapper_unwrapped() {
    let mut map = ImageMap::new();
    map.set(
        b"http://x/a.png".to_vec(),
        b"images/chapter_1/image_0.png".to_vec(),
    );
    let out = clean(
        b"<p data-media-type=\"image\"><img src=\"http://x/a.png\" data-original-width=\"10\"></p>",
        true,
        &map,
    );
    assert_eq!(out, b"<img src=\"images/chapter_1/image_0.png\" />".to_vec());
}

#[test]
fn line_breaks_all_styles_normalized() {
    let out = clean(b"a<br>b<br/>c<br />d", false, &ImageMap::new());
    assert_eq!(out, b"a<br />b<br />c<br />d".to_vec());
}

#[test]
fn rewrite_reencode_idempotent_plain() {
    let first = clean(b"<p data-p-id=\"55\"><br></p>", false, &ImageMap::new());
    let second = clean(&first, false, &ImageMap::new());
    assert_eq!(first, second);
}

#[test]
fn rewrite_reencode_idempotent_with_images() {
    let mut map = ImageMap::new();
    map.set(
        b"http://x/a.png".to_vec(),
        b"images/chapter_1/image_0.png".to_vec(),
    );
    let input =
        b"<p data-media-type=\"image\"><img src=\"http://x/a.png\" data-original-width=\"10\"></p>";
    let first = clean(input, true, &map);
    let second = clean(&first, true, &map);
    assert_eq!(first, second);
}

#[test]
fn embedding_disabled_leaves_src_alone() {
    let mut map = ImageMap::new();
    map.set(b"http://x/a.png".to_vec(), b"images/chapter_1/image_0.png".to_vec());
    let out = clean(b"<img src=\"http://x/a.png\">", false, &map);
    assert_eq!(out, b"<img src=\"http://x/a.png\" />".to_vec());
}

#[test]
fn embedding_disabled_bundles_no_assets() {
    let outcomes: Vec<FetchOutcome> = vec![FetchOutcome {
        url: b"http://x/a.png".to_vec(),
        data: Some(vec![0xFF, 0xD8, 0xFF, 0x00]),
    }];
    let result = process_chapter(1, "One", b"<p>x</p>", false, &outcomes).unwrap();
    assert!(result.images.is_empty());
    assert_eq!(result.html_content, b"<p>x</p>".to_vec());
}

#[test]
fn strict_pass_rejects_unbalanced() {
    assert!(re_encode_html(b"<p>never closed").is_err());
    assert!(re_encode_html(b"<p>wrong</q>").is_err());
    assert!(re_encode_html(b"<p>half <").is_err());
}

#[test]
fn strict_pass_accepts_and_returns_input() {
    let input = b"text <p a=\"1\">inner<br /></p> <!-- note -->".to_vec();
    assert_eq!(re_encode_html(&input).unwrap(), input);
}

#[test]
fn strict_pass_reports_first_failing_position() {
    // A stray end tag fails at its own start.
    assert_eq!(re_encode_html(b"ab</p>").unwrap_err(), 2);
    // A mismatched end tag fails where the end tag begins.
    assert_eq!(re_encode_html(b"<p>x</q>").unwrap_err(), 4);
    // An element left open is only detected at the end of the fragment.
    let open = b"ok <p>never closed";
    assert_eq!(re_encode_html(open).unwrap_err(), open.len());
    // The same position comes back through the chapter processor.
    let outcomes: Vec<FetchOutcome> = Vec::new();
    let failure = process_chapter(1, "Bad", b"ab</p>", false, &outcomes).unwrap_err();
    assert_eq!(failure.position, 2);
}

#[test]
fn tracking_attribute_stripped_everywhere() {
    let out = clean(b"<div data-p-id=\"9\" class=\"k\">t</div>", false, &ImageMap::new());
    assert_eq!(out, b"<div class=\"k\">t</div>".to_vec());
}

#[test]
fn collect_finds_sources_in_order_with_duplicates() {
    let urls = collect_image_urls(
        b"<img src=\"a\"><p><img src=\"b\"></p><!-- <img src=\"c\"> --><img src=\"a\">",
    );
    assert_eq!(urls, vec![b"a".to_vec(), b"b".to_vec(), b"a".to_vec()]);
}

#[test]
fn failed_fetch_maps_to_placeholder_and_adds_no_asset() {
    let outcomes = vec![
        FetchOutcome { url: b"bad://".to_vec(), data: None },
        FetchOutcome { url: b"http://x/p.png".to_vec(), data: Some(vec![0x89, 0x50, 0x4E, 0x47, 0x0D, 0x0A, 0x1A, 0x0A, 1]) },
        FetchOutcome { url: b"bad2://".to_vec(), data: None },
    ];
    let (map, assets) = resolve_images(3, &outcomes);
    let ph = placeholder_path();
    assert_eq!(map.get(b"bad://"), Some(&ph));
    assert_eq!(map.get(b"bad2://"), Some(&ph));
    assert_eq!(assets.len(), 1);
    assert_eq!(assets[0].epub_path, b"images/chapter_3/image_0.png".to_vec());
    for asset in &assets {
        assert_ne!(asset.epub_path, ph);
    }
}

#[test]
fn success_counter_advances_only_on_success() {
    let outcomes = vec![
        FetchOutcome { url: b"u1".to_vec(), data: None },
        FetchOutcome { url: b"u2".to_vec(), data: Some(vec![1, 2, 3]) },
        FetchOutcome { url: b"u3".to_vec(), data: Some(vec![0x47, 0x49, 0x46, 0x38, 7]) },
    ];
    let (map, assets) = resolve_images(2, &outcomes);
    assert_eq!(assets.len(), 2);
    assert_eq!(assets[0].epub_path, b"images/chapter_2/image_0.jpg".to_vec());
    assert_eq!(assets[1].epub_path, b"images/chapter_2/image_1.gif".to_vec());
    assert_eq!(map.get(b"u2"), Some(&b"images/chapter_2/image_0.jpg".to_vec()));
    assert_eq!(map.get(b"u3"), Some(&b"images/chapter_2/image_1.gif".to_vec()));
}

#[test]
fn duplicate_url_keeps_last_resolution() {
    let outcomes = vec![
        FetchOutcome { url: b"u".to_vec(), data: Some(vec![1]) },
        FetchOutcome { url: b"u".to_vec(), data: None },
    ];
    let (map, assets) = resolve_images(1, &outcomes);
    assert_eq!(map.len(), 1);
    assert_eq!(map.get(b"u"), Some(&placeholder_path()));
    assert_eq!(assets.len(), 1);
}

#[test]
fn processed_chapter_carries_index_name_and_images() {
    let outcomes = vec![FetchOutcome {
        url: b"http://x/a".to_vec(),
        data: Some(vec![0xFF, 0xD8, 0xFF, 9]),
    }];
    let chapter = process_chapter(
        4,
        "Four",
        b"<p><img src=\"http://x/a\"></p>",
        true,
        &outcomes,
    )
    .unwrap();
    assert_eq!(chapter.index, 4);
    assert_eq!(chapter.title, "Four".to_string());
    assert_eq!(chapter.file_name, b"4.xhtml".to_vec());
    assert_eq!(
        chapter.html_content,
        b"<p><img src=\"images/chapter_4/image_0.jpg\" /></p>".to_vec()
    );
    assert_eq!(chapter.images.len(), 1);
}

#[test]
fn chapter_failure_is_reported_as_processing_failed() {
    let outcomes: Vec<FetchOutcome> = Vec::new();
    let failure = process_chapter(1, "Bad", b"<p>open", false, &outcomes).unwrap_err();
    assert_eq!(failure.error, AppError::ChapterProcessingFailed);
    assert!(failure.position <= b"<p>open".len());
}

fn bare_chapter(index: usize) -> ProcessedChapter {
    ProcessedChapter {
        index,
        title: format!("c{}", index),
        file_name: chapter_file_name(index),
        html_content: b"<p>x</p>".to_vec(),
        images: Vec::new(),
    }
}

#[test]
fn completion_order_is_resorted_by_index() {
    let shuffled = vec![bare_chapter(3), bare_chapter(1), bare_chapter(2)];
    let ordered = order_chapters(shuffled);
    let indices: Vec<usize> = ordered.iter().map(|c| c.index).collect();
    assert_eq!(indices, vec![1, 2, 3]);
    assert_eq!(ordered[0].title, "c1".to_string());
}

#[test]
fn order_survives_gaps_from_dropped_chapters() {
    let shuffled = vec![bare_chapter(5), bare_chapter(2)];
    let ordered = order_chapters(shuffled);
    let indices: Vec<usize> = ordered.iter().map(|c| c.index).collect();
    assert_eq!(indices, vec![2, 5]);
}

#[test]
fn matching_assigns_contiguous_indices_in_metadata_order() {
    let mut map = storyepub::archive::RawChapterMap::new();
    map.set(42, b"<p>forty-two</p>".to_vec());
    map.set(7, b"<p>seven</p>".to_vec());
    let stubs = vec![
        ChapterStub { id: Some(7), title: Some("Seven".to_string()) },
        ChapterStub { id: Some(42), title: None },
        ChapterStub { id: Some(99), title: Some("Gone".to_string()) },
        ChapterStub { id: None, title: Some("No id".to_string()) },
    ];
    let matched = match_chapters(&stubs, map);
    assert_eq!(matched.len(), 2);
    assert_eq!(matched[0].index, 1);
    assert_eq!(matched[0].id, 7);
    assert_eq!(matched[0].title, "Seven".to_string());
    assert_eq!(matched[0].html, b"<p>seven</p>".to_vec());
    assert_eq!(matched[1].index, 2);
    assert_eq!(matched[1].id, 42);
    assert_eq!(matched[1].title, "Untitled Chapter".to_string());
}

#[test]
fn image_map_overwrites_and_looks_up() {
    let mut map = ImageMap::new();
    map.set(b"k".to_vec(), b"v1".to_vec());
    map.set(b"k".to_vec(), b"v2".to_vec());
    map.set(b"k2".to_vec(), b"w".to_vec());
    assert_eq!(map.len(), 2);
    assert_eq!(map.get(b"k"), Some(&b"v2".to_vec()));
    assert_eq!(map.get(b"k2"), Some(&b"w".to_vec()));
    assert_eq!(map.get(b"missing"), None);
}

#[test]
fn placeholder_asset_list_has_single_entry_globally() {
    let outcomes_a = vec![
        FetchOutcome { url: b"x".to_vec(), data: None },
        FetchOutcome { url: b"y".to_vec(), data: None },
    ];
    let outcomes_b = vec![FetchOutcome { url: b"z".to_vec(), data: None }];
    let (_, assets_a) = resolve_images(1, &outcomes_a);
    let (_, assets_b) = resolve_images(2, &outcomes_b);
    let mut all: Vec<ImageAsset> = Vec::new();
    all.extend(assets_a);
    all.extend(assets_b);
    let ph = placeholder_path();
    let occurrences = all.iter().filter(|a| a.epub_path == ph).count() + 1;
    assert_eq!(occurrences, 1);
}

#[test]
fn empty_fragment_passes_through() {
    let out = clean(b"", false, &ImageMap::new());
    assert_eq!(out, Vec::<u8>::new());
    assert_eq!(re_encode_html(b"").unwrap(), Vec::<u8>::new());
}

#[test]
fn text_and_untouched_markup_pass_through_byte_for_byte() {
    let input = b"plain text &amp; <em class=\"x\">kept</em> <!-- comment -->";
    let out = clean(input, false, &ImageMap::new());
    assert_eq!(out, input.to_vec());
}

#[test]
fn nested_wrapper_keeps_inner_paragraphs() {
    let out = clean(
        b"<p data-media-type=\"image\"><p>inner</p></p>",
        false,
        &ImageMap::new(),
    );
    assert_eq!(out, b"<p>inner</p>".to_vec());
}

#[test]
fn tag_names_match_case_insensitively() {
    let out = clean(b"x<BR>y", false, &ImageMap::new());
    assert_eq!(out, b"x<br />y".to_vec());
}

#[test]
fn single_quoted_and_unquoted_values_are_requoted() {
    let out = clean(b"<img src='u' alt=plain>", false, &ImageMap::new());
    assert_eq!(out, b"<img src=\"u\" alt=\"plain\" />".to_vec());
}

#[test]
fn quotes_inside_values_are_escaped() {
    let out = clean(b"<img src='a\"b'>", false, &ImageMap::new());
    assert_eq!(out, b"<img src=\"a&quot;b\" />".to_vec());
}

#[test]
fn valueless_attributes_keep_an_empty_value() {
    let out = clean(b"<img src=\"u\" ismap>", false, &ImageMap::new());
    assert_eq!(out, b"<img src=\"u\" ismap=\"\" />".to_vec());
}
