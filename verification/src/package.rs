use vstd::prelude::*;
use vstd::string::StringExecFns;
use crate::chapters::{
    order_chapters, sorted_by_index, ChapterStub, ProcessedChapter,
};
use crate::lang::{
    get_direction_for_lang_id, get_lang_code, spec_direction_for_lang_id, spec_lang_code,
    Direction,
};

verus! {

/// Story-level metadata as the platform collaborator supplies it: title,
/// author, description, numeric language id, optional cover URL, and the
/// chapter stubs in canonical reading order.
pub struct StoryMetadata {
    pub title: Option<String>,
    pub author: Option<String>,
    pub description: Option<String>,
    pub language_id: Option<u64>,
    pub cover_url: Option<String>,
    pub chapters: Vec<ChapterStub>,
}

/// The outcome of one full conversion: the generated package in whatever
/// form the caller asked for, the sanitized output name, and the story
/// metadata that drove it.
pub struct StoryDownload<T> {
    pub sanitized_title: String,
    pub epub_response: T,
    pub metadata: StoryMetadata,
}

/// What the sanitizer returns for a story title: the title with
/// filesystem-unsafe characters replaced by underscores.
pub uninterp spec fn sanitized_of(title: Seq<char>) -> Seq<char>;

/// Relies on sanitize_filename::sanitize_with_options, with every option
/// pinned (underscore replacement, truncation on, platform-specific rules
/// off): the sanitized title depends on the title's characters alone.
#[verifier::external_body]
fn sanitize_title(title: &str) -> (r: String)
    ensures
        r@ == sanitized_of(title@),
{
    sanitize_filename::sanitize_with_options(
        title,
        sanitize_filename::Options { windows: false, truncate: true, replacement: "_" },
    )
}

/// The decimal digit characters of a non-negative integer.
pub open spec fn spec_dec_chars(n: int) -> Seq<char>
    decreases n,
{
    if n < 0 {
        seq![]
    } else if n < 10 {
        seq![digit_char(n)]
    } else {
        spec_dec_chars(n / 10) + seq![digit_char(n % 10)]
    }
}

pub open spec fn digit_char(d: int) -> char {
    if d == 0 {
        '0'
    } else if d == 1 {
        '1'
    } else if d == 2 {
        '2'
    } else if d == 3 {
        '3'
    } else if d == 4 {
        '4'
    } else if d == 5 {
        '5'
    } else if d == 6 {
        '6'
    } else if d == 7 {
        '7'
    } else if d == 8 {
        '8'
    } else {
        '9'
    }
}

fn append_digit(s: &mut String, d: u64)
    requires
        d < 10,
    ensures
        final(s)@ == old(s)@ + seq![digit_char(d as int)],
{
    if d == 0 {
        proof {
            reveal_strlit("0");
        }
        s.append("0");
    } else if d == 1 {
        proof {
            reveal_strlit("1");
        }
        s.append("1");
    } else if d == 2 {
        proof {
            reveal_strlit("2");
        }
        s.append("2");
    } else if d == 3 {
        proof {
            reveal_strlit("3");
        }
        s.append("3");
    } else if d == 4 {
        proof {
            reveal_strlit("4");
        }
        s.append("4");
    } else if d == 5 {
        proof {
            reveal_strlit("5");
        }
        s.append("5");
    } else if d == 6 {
        proof {
            reveal_strlit("6");
        }
        s.append("6");
    } else if d == 7 {
        proof {
            reveal_strlit("7");
        }
        s.append("7");
    } else if d == 8 {
        proof {
            reveal_strlit("8");
        }
        s.append("8");
    } else {
        proof {
            reveal_strlit("9");
        }
        s.append("9");
    }
    proof {
        assert(s@ =~= old(s)@ + seq![digit_char(d as int)]);
    }
}

/// Appends the decimal character form of `n`.
pub fn push_dec_str(s: &mut String, n: u64)
    ensures
        final(s)@ == old(s)@ + spec_dec_chars(n as int),
    decreases n,
{
    if n < 10 {
        append_digit(s, n);
        proof {
            assert(s@ =~= old(s)@ + spec_dec_chars(n as int));
        }
    } else {
        push_dec_str(s, n / 10);
        append_digit(s, n % 10);
        proof {
            assert(s@ =~= old(s)@ + spec_dec_chars(n as int));
        }
    }
}

/// The stem the output file is named by: `{story_id}-{sanitized_title}`;
/// the caller appends `.epub`.
pub fn story_file_stem(story_id: u64, title: &str) -> (r: String)
    ensures
        r@ == spec_dec_chars(story_id as int) + seq!['-'] + sanitized_of(title@),
{
    let mut s = String::new();
    push_dec_str(&mut s, story_id);
    proof {
        reveal_strlit("-");
        assert("-"@ =~= seq!['-']);
    }
    s.append("-");
    let t = sanitize_title(title);
    s.append(t.as_str());
    proof {
        assert(s@ =~= spec_dec_chars(story_id as int) + seq!['-'] + sanitized_of(title@));
    }
    s
}

/// An option's characters, or the given fallback.
pub open spec fn spec_or_default(t: Option<Seq<char>>, d: Seq<char>) -> Seq<char> {
    match t {
        Some(x) => x,
        None => d,
    }
}

pub open spec fn title_view(t: Option<String>) -> Option<Seq<char>> {
    match t {
        Some(ref x) => Some(x@),
        None => None,
    }
}

/// Everything the package serializer collaborator is handed: the resolved
/// story fields, the language code and reading direction, the chapters in
/// restored reading order, the output name stem, and how many chapters were
/// dropped for want of a matching archive entry.
pub struct PackageRequest {
    pub title: String,
    pub author: String,
    pub description: String,
    pub language_code: &'static str,
    pub direction: Direction,
    pub output_stem: String,
    pub chapters: Vec<ProcessedChapter>,
    pub dropped_chapters: usize,
}

/// Assembles the final package request: story fields fall back to their
/// defaults, the language id (default 1) picks the code and direction, and
/// the chapters — collected in completion order — are restored to reading
/// order by their sequence index.
pub fn build_package(
    story_id: u64,
    story: &StoryMetadata,
    completed: Vec<ProcessedChapter>,
    dropped_chapters: usize,
) -> (r: PackageRequest)
    ensures
        r.title@ == spec_or_default(title_view(story.title), "Untitled Story"@),
        r.author@ == spec_or_default(title_view(story.author), "Unknown Author"@),
        r.description@ == spec_or_default(title_view(story.description), ""@),
        r.language_code@ == spec_lang_code(spec_lang_id(story)),
        r.direction == spec_direction_for_lang_id(spec_lang_id(story)),
        r.output_stem@ == spec_dec_chars(story_id as int) + seq!['-'] + sanitized_of(
            spec_or_default(title_view(story.title), "Untitled Story"@),
        ),
        sorted_by_index(r.chapters@),
        r.chapters@.to_multiset() == completed@.to_multiset(),
        r.dropped_chapters == dropped_chapters,
{
    let title = match &story.title {
        Some(t) => t.clone(),
        None => String::from_str("Untitled Story"),
    };
    let author = match &story.author {
        Some(a) => a.clone(),
        None => String::from_str("Unknown Author"),
    };
    let description = match &story.description {
        Some(d) => d.clone(),
        None => {
            proof {
                reveal_strlit("");
            }
            String::new()
        },
    };
    let language_id = match story.language_id {
        Some(id) => id,
        None => 1,
    };
    let language_code = get_lang_code(language_id);
    let direction = get_direction_for_lang_id(language_id);
    let output_stem = story_file_stem(story_id, title.as_str());
    let chapters = order_chapters(completed);
    PackageRequest {
        title,
        author,
        description,
        language_code,
        direction,
        output_stem,
        chapters,
        dropped_chapters,
    }
}

/// The language id a story resolves to: its own, or the default.
pub open spec fn spec_lang_id(story: &StoryMetadata) -> u64 {
    match story.language_id {
        Some(id) => id,
        None => 1,
    }
}

} // verus!
