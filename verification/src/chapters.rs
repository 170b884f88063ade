use vstd::prelude::*;
use vstd::string::StringExecFns;
use crate::archive::{spec_cmap_get, spec_cmap_remove, RawChapterMap};

verus! {

/// One chapter as the metadata collaborator lists it, in canonical reading
/// order: a platform id and an optional title.
#[derive(Debug)]
pub struct ChapterStub {
    pub id: Option<i64>,
    pub title: Option<String>,
}

pub ghost struct SpecStub {
    pub id: Option<i64>,
    pub title: Option<Seq<char>>,
}

impl View for ChapterStub {
    type V = SpecStub;

    open spec fn view(&self) -> SpecStub {
        SpecStub {
            id: self.id,
            title: match self.title {
                Some(ref t) => Some(t@),
                None => None,
            },
        }
    }
}

pub open spec fn stubs_view(s: Seq<ChapterStub>) -> Seq<SpecStub> {
    Seq::new(s.len(), |k: int| s[k]@)
}

/// A chapter that survived the join against the archive: its id, its title
/// (or the fallback title), and its raw HTML.
#[derive(Debug)]
pub struct MatchedChapter {
    pub index: usize,
    pub id: i64,
    pub title: String,
    pub html: Vec<u8>,
}

pub ghost struct SpecMatched {
    pub id: i64,
    pub title: Seq<char>,
    pub html: Seq<u8>,
}

pub open spec fn matched_view(s: Seq<MatchedChapter>) -> Seq<SpecMatched> {
    Seq::new(s.len(), |k: int| SpecMatched { id: s[k].id, title: s[k].title@, html: s[k].html@ })
}

/// The title a stub contributes: its own, or the fallback.
pub open spec fn stub_title(t: Option<Seq<char>>) -> Seq<char> {
    match t {
        Some(x) => x,
        None => "Untitled Chapter"@,
    }
}

/// The join of the ordered stub list against the chapter map: each stub
/// takes its entry out of the map; stubs without an id or without a matching
/// entry are dropped silently. Returns the surviving chapters in stub order
/// and what is left of the map.
pub open spec fn spec_match(stubs: Seq<SpecStub>, m: Seq<(i64, Seq<u8>)>) -> (
    Seq<SpecMatched>,
    Seq<(i64, Seq<u8>)>,
)
    decreases stubs.len(),
{
    if stubs.len() == 0 {
        (seq![], m)
    } else {
        match stubs[0].id {
            Some(id) => match spec_cmap_get(m, id) {
                Some(html) => {
                    let rest = spec_match(stubs.drop_first(), spec_cmap_remove(m, id));
                    (
                        seq![SpecMatched { id, title: stub_title(stubs[0].title), html }] + rest.0,
                        rest.1,
                    )
                },
                None => spec_match(stubs.drop_first(), m),
            },
            None => spec_match(stubs.drop_first(), m),
        }
    }
}

/// Joins the stub list against the chapter map, assigning the surviving
/// chapters the contiguous sequence indices 1..N in original stub order.
pub fn match_chapters(stubs: &Vec<ChapterStub>, map: RawChapterMap) -> (r: Vec<MatchedChapter>)
    ensures
        matched_view(r@) == spec_match(stubs_view(stubs@), map@).0,
        forall|k: int| 0 <= k < r@.len() ==> #[trigger] r@[k].index == k + 1,
{
    let ghost sv = stubs_view(stubs@);
    let ghost om = map@;
    let mut map = map;
    let mut r: Vec<MatchedChapter> = Vec::new();
    let mut i: usize = 0;
    proof {
        assert(sv.skip(0) =~= sv);
        assert(matched_view(r@) =~= Seq::<SpecMatched>::empty());
    }
    while i < stubs.len()
        invariant
            0 <= i <= stubs@.len(),
            sv == stubs_view(stubs@),
            r@.len() <= i,
            spec_match(sv, om).0 == matched_view(r@) + spec_match(sv.skip(i as int), map@).0,
            spec_match(sv, om).1 == spec_match(sv.skip(i as int), map@).1,
            forall|k: int| 0 <= k < r@.len() ==> #[trigger] r@[k].index == k + 1,
        decreases stubs@.len() - i,
    {
        let ghost prev = r@;
        proof {
            assert(sv.skip(i as int)[0] == stubs@[i as int]@);
            assert(sv.skip(i as int).drop_first() =~= sv.skip(i + 1));
        }
        match stubs[i].id {
            Some(id) => {
                match map.remove(id) {
                    Some(html) => {
                        let title = match &stubs[i].title {
                            Some(t) => t.clone(),
                            None => String::from_str("Untitled Chapter"),
                        };
                        let index = r.len() + 1;
                        r.push(MatchedChapter { index, id, title, html });
                        proof {
                            assert(matched_view(r@) =~= matched_view(prev) + seq![
                                SpecMatched {
                                    id,
                                    title: stub_title(stubs@[i as int]@.title),
                                    html: r@.last().html@,
                                },
                            ]);
                        }
                    },
                    None => {},
                }
            },
            None => {},
        }
        i += 1;
    }
    proof {
        assert(sv.skip(sv.len() as int) =~= Seq::<SpecStub>::empty());
        assert(matched_view(r@) + spec_match(sv.skip(sv.len() as int), map@).0 =~= matched_view(
            r@,
        ));
    }
    r
}

// ---------------------------------------------------------------------------
// The final chapter count is the size of the covered subset.
// ---------------------------------------------------------------------------

/// Whether the stub ids that are present are pairwise distinct.
pub open spec fn distinct_ids(stubs: Seq<SpecStub>) -> bool {
    forall|j: int, k: int|
        0 <= j < k < stubs.len() && stubs[j].id is Some && stubs[k].id is Some ==> stubs[j].id
            != stubs[k].id
}

/// How many stubs have an id that the map covers.
pub open spec fn spec_covered_count(stubs: Seq<SpecStub>, m: Seq<(i64, Seq<u8>)>) -> int
    decreases stubs.len(),
{
    if stubs.len() == 0 {
        0int
    } else {
        (match stubs[0].id {
            Some(id) => if spec_cmap_get(m, id) is Some {
                1int
            } else {
                0int
            },
            None => 0int,
        }) + spec_covered_count(stubs.drop_first(), m)
    }
}

proof fn lemma_cmap_remove_get(m: Seq<(i64, Seq<u8>)>, id: i64, id2: i64)
    requires
        id != id2,
    ensures
        spec_cmap_get(spec_cmap_remove(m, id), id2) == spec_cmap_get(m, id2),
    decreases m.len(),
{
    if m.len() > 0 {
        if m[0].0 == id {
        } else {
            lemma_cmap_remove_get(m.drop_first(), id, id2);
            let r = spec_cmap_remove(m, id);
            assert(r[0] == m[0]);
            assert(r.drop_first() =~= spec_cmap_remove(m.drop_first(), id));
        }
    }
}

proof fn lemma_covered_remove(stubs: Seq<SpecStub>, m: Seq<(i64, Seq<u8>)>, id: i64)
    requires
        forall|k: int| 0 <= k < stubs.len() ==> stubs[k].id != Some(id),
    ensures
        spec_covered_count(stubs, spec_cmap_remove(m, id)) == spec_covered_count(stubs, m),
    decreases stubs.len(),
{
    if stubs.len() > 0 {
        assert(forall|k: int|
            0 <= k < stubs.len() - 1 ==> stubs.drop_first()[k] == stubs[k + 1]);
        lemma_covered_remove(stubs.drop_first(), m, id);
        match stubs[0].id {
            Some(id2) => {
                lemma_cmap_remove_get(m, id, id2);
            },
            None => {},
        }
    }
}

proof fn lemma_cmap_remove_len(m: Seq<(i64, Seq<u8>)>, id: i64)
    requires
        spec_cmap_get(m, id) is Some,
    ensures
        spec_cmap_remove(m, id).len() == m.len() - 1,
    decreases m.len(),
{
    if m.len() > 0 && m[0].0 != id {
        lemma_cmap_remove_len(m.drop_first(), id);
    }
}

/// With no assumption on the stubs at all, every surviving chapter consumed
/// exactly one archive entry: the chapter count is the number of entries the
/// join took out of the map.
pub proof fn lemma_match_consumes(stubs: Seq<SpecStub>, m: Seq<(i64, Seq<u8>)>)
    ensures
        spec_match(stubs, m).0.len() + spec_match(stubs, m).1.len() == m.len(),
    decreases stubs.len(),
{
    if stubs.len() > 0 {
        match stubs[0].id {
            Some(id) => {
                match spec_cmap_get(m, id) {
                    Some(html) => {
                        lemma_cmap_remove_len(m, id);
                        lemma_match_consumes(stubs.drop_first(), spec_cmap_remove(m, id));
                    },
                    None => {
                        lemma_match_consumes(stubs.drop_first(), m);
                    },
                }
            },
            None => {
                lemma_match_consumes(stubs.drop_first(), m);
            },
        }
    }
}

/// With pairwise-distinct stub ids, the number of chapters the join yields
/// is exactly the number of stubs whose id the archive covers.
pub proof fn lemma_match_count(stubs: Seq<SpecStub>, m: Seq<(i64, Seq<u8>)>)
    requires
        distinct_ids(stubs),
    ensures
        spec_match(stubs, m).0.len() == spec_covered_count(stubs, m),
    decreases stubs.len(),
{
    if stubs.len() > 0 {
        let rest = stubs.drop_first();
        assert(forall|k: int| 0 <= k < rest.len() ==> rest[k] == stubs[k + 1]);
        match stubs[0].id {
            Some(id) => {
                match spec_cmap_get(m, id) {
                    Some(html) => {
                        assert(forall|k: int| 0 <= k < rest.len() ==> rest[k].id != Some(id));
                        lemma_covered_remove(rest, m, id);
                        lemma_match_count(rest, spec_cmap_remove(m, id));
                    },
                    None => {
                        lemma_match_count(rest, m);
                    },
                }
            },
            None => {
                lemma_match_count(rest, m);
            },
        }
    }
}

// ---------------------------------------------------------------------------
// Image assets and fetch outcomes.
// ---------------------------------------------------------------------------

/// One image bundled into the package: its package-relative path and its
/// raw bytes.
#[derive(Debug)]
pub struct ImageAsset {
    pub epub_path: Vec<u8>,
    pub data: Vec<u8>,
}

pub ghost struct SpecAsset {
    pub epub_path: Seq<u8>,
    pub data: Seq<u8>,
}

impl View for ImageAsset {
    type V = SpecAsset;

    open spec fn view(&self) -> SpecAsset {
        SpecAsset { epub_path: self.epub_path@, data: self.data@ }
    }
}

pub open spec fn assets_view(s: Seq<ImageAsset>) -> Seq<SpecAsset> {
    Seq::new(s.len(), |k: int| s[k]@)
}

/// What one image fetch settled to: the original URL, and the downloaded
/// bytes — or `None` for an invalid URL, a non-success status or a
/// transport error, all treated alike as a soft failure.
#[derive(Debug)]
pub struct FetchOutcome {
    pub url: Vec<u8>,
    pub data: Option<Vec<u8>>,
}

pub ghost struct SpecOutcome {
    pub url: Seq<u8>,
    pub data: Option<Seq<u8>>,
}

impl View for FetchOutcome {
    type V = SpecOutcome;

    open spec fn view(&self) -> SpecOutcome {
        SpecOutcome {
            url: self.url@,
            data: match self.data {
                Some(ref d) => Some(d@),
                None => None,
            },
        }
    }
}

pub open spec fn outcomes_view(s: Seq<FetchOutcome>) -> Seq<SpecOutcome> {
    Seq::new(s.len(), |k: int| s[k]@)
}

// ---------------------------------------------------------------------------
// Extensions and package paths.
// ---------------------------------------------------------------------------

/// The file extension inferred from leading image bytes, with the JPEG
/// default for anything unrecognized.
pub open spec fn spec_ext_bytes(d: Seq<u8>) -> Seq<u8> {
    if d.len() >= 3 && d[0] == 0xFFu8 && d[1] == 0xD8u8 && d[2] == 0xFFu8 {
        seq![106u8, 112u8, 103u8]
    } else if d.len() >= 8 && d[0] == 0x89u8 && d[1] == 0x50u8 && d[2] == 0x4Eu8 && d[3] == 0x47u8
        && d[4] == 0x0Du8 && d[5] == 0x0Au8 && d[6] == 0x1Au8 && d[7] == 0x0Au8 {
        seq![112u8, 110u8, 103u8]
    } else if d.len() >= 4 && d[0] == 0x47u8 && d[1] == 0x49u8 && d[2] == 0x46u8 && d[3]
        == 0x38u8 {
        seq![103u8, 105u8, 102u8]
    } else {
        seq![106u8, 112u8, 103u8]
    }
}

fn ext_bytes(d: &[u8]) -> (r: Vec<u8>)
    ensures
        r@ == spec_ext_bytes(d@),
{
    let r: Vec<u8>;
    if d.len() >= 3 && d[0] == 0xFF && d[1] == 0xD8 && d[2] == 0xFF {
        r = vec![106u8, 112u8, 103u8];
        proof {
            assert(r@ =~= spec_ext_bytes(d@));
        }
    } else if d.len() >= 8 && d[0] == 0x89 && d[1] == 0x50 && d[2] == 0x4E && d[3] == 0x47 && d[4]
        == 0x0D && d[5] == 0x0A && d[6] == 0x1A && d[7] == 0x0A {
        r = vec![112u8, 110u8, 103u8];
        proof {
            assert(r@ =~= spec_ext_bytes(d@));
        }
    } else if d.len() >= 4 && d[0] == 0x47 && d[1] == 0x49 && d[2] == 0x46 && d[3] == 0x38 {
        r = vec![103u8, 105u8, 102u8];
        proof {
            assert(r@ =~= spec_ext_bytes(d@));
        }
    } else {
        r = vec![106u8, 112u8, 103u8];
        proof {
            assert(r@ =~= spec_ext_bytes(d@));
        }
    }
    r
}

/// The decimal digits of a non-negative integer, most significant first.
pub open spec fn spec_dec(n: int) -> Seq<u8>
    decreases n,
{
    if n < 0 {
        seq![]
    } else if n < 10 {
        seq![(48 + n) as u8]
    } else {
        spec_dec(n / 10) + seq![(48 + n % 10) as u8]
    }
}

/// Appends the decimal form of `n`.
pub fn push_dec(out: &mut Vec<u8>, n: u64)
    ensures
        final(out)@ == old(out)@ + spec_dec(n as int),
    decreases n,
{
    if n < 10 {
        out.push(48 + n as u8);
        proof {
            assert(out@ =~= old(out)@ + spec_dec(n as int));
        }
    } else {
        push_dec(out, n / 10);
        out.push(48 + (n % 10) as u8);
        proof {
            assert(out@ =~= old(out)@ + spec_dec(n as int));
        }
    }
}

/// The generated file name of chapter `index`: its index and `.xhtml`.
pub open spec fn xhtml_suffix() -> Seq<u8> {
    seq![46u8, 120u8, 104u8, 116u8, 109u8, 108u8]
}

/// The generated chapter file name `{index}.xhtml`.
pub fn chapter_file_name(index: usize) -> (r: Vec<u8>)
    ensures
        r@ == spec_dec(index as int) + xhtml_suffix(),
{
    let mut out: Vec<u8> = Vec::new();
    push_dec(&mut out, index as u64);
    let suffix: Vec<u8> = vec![46u8, 120u8, 104u8, 116u8, 109u8, 108u8];
    proof {
        assert(suffix@ =~= xhtml_suffix());
    }
    crate::scan::push_bytes(&mut out, suffix.as_slice());
    out
}

/// The path prefix of every per-chapter image.
pub open spec fn img_dir_prefix() -> Seq<u8> {
    seq![105u8, 109u8, 97u8, 103u8, 101u8, 115u8, 47u8, 99u8, 104u8, 97u8, 112u8, 116u8, 101u8, 114u8, 95u8]
}

pub open spec fn img_infix() -> Seq<u8> {
    seq![47u8, 105u8, 109u8, 97u8, 103u8, 101u8, 95u8]
}

/// The unique package path of the `n`-th successfully fetched image of
/// chapter `index`: `images/chapter_{index}/image_{n}.{ext}`.
pub open spec fn spec_image_path(index: int, n: int, ext: Seq<u8>) -> Seq<u8> {
    img_dir_prefix() + spec_dec(index) + img_infix() + spec_dec(n) + seq![46u8] + ext
}

fn image_path(index: usize, n: usize, ext: &[u8]) -> (r: Vec<u8>)
    ensures
        r@ == spec_image_path(index as int, n as int, ext@),
{
    let mut out: Vec<u8> = vec![105u8, 109u8, 97u8, 103u8, 101u8, 115u8, 47u8, 99u8, 104u8, 97u8, 112u8, 116u8, 101u8, 114u8, 95u8];
    proof {
        assert(out@ =~= img_dir_prefix());
    }
    push_dec(&mut out, index as u64);
    let infix: Vec<u8> = vec![47u8, 105u8, 109u8, 97u8, 103u8, 101u8, 95u8];
    proof {
        assert(infix@ =~= img_infix());
    }
    crate::scan::push_bytes(&mut out, infix.as_slice());
    push_dec(&mut out, n as u64);
    out.push(46);
    crate::scan::push_bytes(&mut out, ext);
    proof {
        assert(out@ =~= spec_image_path(index as int, n as int, ext@));
    }
    out
}

/// The process-wide path of the shared placeholder image: every image that
/// cannot be resolved maps here, and the one placeholder asset itself is
/// added to the package exactly once, globally.
pub open spec fn spec_placeholder_path() -> Seq<u8> {
    seq![105u8, 109u8, 97u8, 103u8, 101u8, 115u8, 47u8, 112u8, 108u8, 97u8, 99u8, 101u8, 104u8, 111u8, 108u8, 100u8, 101u8, 114u8, 46u8, 106u8, 112u8, 103u8]
}

/// The shared placeholder path as a value.
pub fn placeholder_path() -> (r: Vec<u8>)
    ensures
        r@ == spec_placeholder_path(),
{
    let v: Vec<u8> = vec![105u8, 109u8, 97u8, 103u8, 101u8, 115u8, 47u8, 112u8, 108u8, 97u8, 99u8, 101u8, 104u8, 111u8, 108u8, 100u8, 101u8, 114u8, 46u8, 106u8, 112u8, 103u8];
    proof {
        assert(v@ =~= spec_placeholder_path());
    }
    v
}

// ---------------------------------------------------------------------------
// Resolving fetch outcomes into the image map and asset list.
// ---------------------------------------------------------------------------

pub ghost struct SpecResolved {
    pub map: Seq<(Seq<u8>, Seq<u8>)>,
    pub assets: Seq<SpecAsset>,
    pub n: int,
}

/// The image map and asset list that a chapter's settled fetches yield, in
/// settlement order: each success is stored under the next unique chapter
/// path (the per-chapter counter advances only on success) and its URL is
/// mapped there; each failure maps its URL to the shared placeholder path
/// and contributes no asset. A URL settled twice keeps its last resolution.
pub open spec fn spec_resolve(index: int, os: Seq<SpecOutcome>) -> SpecResolved
    decreases os.len(),
{
    if os.len() == 0 {
        SpecResolved { map: seq![], assets: seq![], n: 0 }
    } else {
        let prev = spec_resolve(index, os.drop_last());
        let o = os.last();
        match o.data {
            Some(bytes) => {
                let path = spec_image_path(index, prev.n, spec_ext_bytes(bytes));
                SpecResolved {
                    map: crate::imagemap::spec_map_set(prev.map, o.url, path),
                    assets: prev.assets.push(SpecAsset { epub_path: path, data: bytes }),
                    n: prev.n + 1,
                }
            },
            None => SpecResolved {
                map: crate::imagemap::spec_map_set(prev.map, o.url, spec_placeholder_path()),
                assets: prev.assets,
                n: prev.n,
            },
        }
    }
}

/// Builds the chapter's image map and asset list from its settled fetches.
pub fn resolve_images(index: usize, outcomes: &Vec<FetchOutcome>) -> (r: (
    crate::imagemap::ImageMap,
    Vec<ImageAsset>,
))
    ensures
        r.0@ == spec_resolve(index as int, outcomes_view(outcomes@)).map,
        assets_view(r.1@) == spec_resolve(index as int, outcomes_view(outcomes@)).assets,
{
    let ghost ov = outcomes_view(outcomes@);
    let mut map = crate::imagemap::ImageMap::new();
    let mut assets: Vec<ImageAsset> = Vec::new();
    let mut n: usize = 0;
    let mut k: usize = 0;
    proof {
        assert(ov.take(0) =~= Seq::<SpecOutcome>::empty());
        assert(assets_view(assets@) =~= Seq::<SpecAsset>::empty());
    }
    while k < outcomes.len()
        invariant
            0 <= k <= outcomes@.len(),
            ov == outcomes_view(outcomes@),
            n <= k,
            map@ == spec_resolve(index as int, ov.take(k as int)).map,
            assets_view(assets@) == spec_resolve(index as int, ov.take(k as int)).assets,
            n == spec_resolve(index as int, ov.take(k as int)).n,
        decreases outcomes@.len() - k,
    {
        let ghost prev_assets = assets@;
        proof {
            assert(ov.take(k + 1).drop_last() =~= ov.take(k as int));
            assert(ov.take(k + 1).last() == outcomes@[k as int]@);
        }
        match &outcomes[k].data {
            Some(bytes) => {
                let ext = ext_bytes(bytes.as_slice());
                let path = image_path(index, n, ext.as_slice());
                let url = crate::scan::copy_bytes(outcomes[k].url.as_slice());
                let data = crate::scan::copy_bytes(bytes.as_slice());
                let asset_path = crate::scan::copy_bytes(path.as_slice());
                map.set(url, path);
                assets.push(ImageAsset { epub_path: asset_path, data });
                n += 1;
                proof {
                    assert(assets_view(assets@) =~= assets_view(prev_assets) + seq![
                        assets@.last()@,
                    ]);
                    assert(assets_view(assets@) =~= spec_resolve(
                        index as int,
                        ov.take(k + 1),
                    ).assets);
                }
            },
            None => {
                let url = crate::scan::copy_bytes(outcomes[k].url.as_slice());
                let ph = placeholder_path();
                map.set(url, ph);
            },
        }
        k += 1;
    }
    proof {
        assert(ov.take(ov.len() as int) =~= ov);
    }
    (map, assets)
}

// ---------------------------------------------------------------------------
// Processing one chapter.
// ---------------------------------------------------------------------------

/// One fully processed chapter, immutable once constructed: its 1-based
/// sequence index over the matched subset, title, generated file name,
/// cleaned HTML, and the images it bundles.
#[derive(Debug)]
pub struct ProcessedChapter {
    pub index: usize,
    pub title: String,
    pub file_name: Vec<u8>,
    pub html_content: Vec<u8>,
    pub images: Vec<ImageAsset>,
}

/// The image map a chapter is rewritten against: the resolved map with
/// embedding on, the empty map with embedding off.
pub open spec fn spec_chapter_map(index: int, embed: bool, os: Seq<SpecOutcome>) -> Seq<
    (Seq<u8>, Seq<u8>),
> {
    if embed {
        spec_resolve(index, os).map
    } else {
        seq![]
    }
}

/// The cleaned HTML of a chapter: the tolerant rewrite against its image
/// map (the strict pass returns it unchanged when it accepts it).
pub open spec fn spec_chapter_html(index: int, html: Seq<u8>, embed: bool, os: Seq<SpecOutcome>)
    -> Seq<u8> {
    crate::rewrite::spec_rewrite(html, embed, spec_chapter_map(index, embed, os))
}

/// The assets a chapter bundles: what its fetches resolved to with
/// embedding on, nothing with embedding off.
pub open spec fn spec_chapter_assets(index: int, embed: bool, os: Seq<SpecOutcome>) -> Seq<
    SpecAsset,
> {
    if embed {
        spec_resolve(index, os).assets
    } else {
        seq![]
    }
}

/// A chapter-scoped failure: which error it is, and the byte position, in
/// the rewritten fragment, of the first construct the strict pass rejects.
#[derive(Debug, Clone, Copy, PartialEq, Eq, Structural)]
pub struct ChapterFailure {
    pub error: crate::error::AppError,
    pub position: usize,
}

/// Processes one chapter from its raw HTML and its settled image fetches:
/// rewrite, then strict re-encode. Succeeds exactly when the rewritten
/// fragment passes the strict pass; a failure is this chapter's alone and
/// never touches its siblings. With embedding off the outcomes are ignored,
/// the map stays empty and no asset is bundled.
pub fn process_chapter(
    index: usize,
    title: &str,
    html_in: &[u8],
    embed_images: bool,
    outcomes: &Vec<FetchOutcome>,
) -> (r: Result<ProcessedChapter, ChapterFailure>)
    ensures
        crate::reencode::spec_xml_ok(
            spec_chapter_html(index as int, html_in@, embed_images, outcomes_view(outcomes@)),
        ) <==> r is Ok,
        r matches Ok(pc) ==> pc.index == index && pc.title@ == title@ && pc.file_name@ == spec_dec(
            index as int,
        ) + xhtml_suffix() && pc.html_content@ == spec_chapter_html(
            index as int,
            html_in@,
            embed_images,
            outcomes_view(outcomes@),
        ) && assets_view(pc.images@) == spec_chapter_assets(
            index as int,
            embed_images,
            outcomes_view(outcomes@),
        ),
        r matches Err(f) ==> f.error == crate::error::AppError::ChapterProcessingFailed
            && f.position == crate::reencode::spec_xml_fail_at(
            spec_chapter_html(index as int, html_in@, embed_images, outcomes_view(outcomes@)),
            0,
            seq![],
        ) && f.position <= spec_chapter_html(
            index as int,
            html_in@,
            embed_images,
            outcomes_view(outcomes@),
        ).len(),
{
    let map: crate::imagemap::ImageMap;
    let images: Vec<ImageAsset>;
    if embed_images {
        let resolved = resolve_images(index, outcomes);
        map = resolved.0;
        images = resolved.1;
    } else {
        map = crate::imagemap::ImageMap::new();
        images = Vec::new();
        proof {
            assert(assets_view(images@) =~= Seq::<SpecAsset>::empty());
        }
    }
    match crate::reencode::rewrite_and_clean_html(html_in, embed_images, &map) {
        Ok(cleaned) => {
            let title_owned = title.to_owned();
            let file_name = chapter_file_name(index);
            Ok(
                ProcessedChapter {
                    index,
                    title: title_owned,
                    file_name,
                    html_content: cleaned,
                    images,
                },
            )
        },
        Err(position) => Err(
            ChapterFailure { error: crate::error::AppError::ChapterProcessingFailed, position },
        ),
    }
}

// ---------------------------------------------------------------------------
// Restoring the reading order after concurrent completion.
// ---------------------------------------------------------------------------

/// Non-decreasing by sequence index.
pub open spec fn sorted_by_index(s: Seq<ProcessedChapter>) -> bool {
    forall|j: int, k: int| 0 <= j < k < s.len() ==> s[j].index <= s[k].index
}

/// Pairwise distinct sequence indices.
pub open spec fn distinct_indices(s: Seq<ProcessedChapter>) -> bool {
    forall|j: int, k: int| 0 <= j < k < s.len() ==> s[j].index != s[k].index
}

/// Restores the reading order over chapters collected in completion order:
/// sorts them by sequence index, keeping exactly the chapters given.
pub fn order_chapters(chapters: Vec<ProcessedChapter>) -> (r: Vec<ProcessedChapter>)
    ensures
        sorted_by_index(r@),
        r@.to_multiset() == chapters@.to_multiset(),
{
    broadcast use vstd::seq_lib::group_to_multiset_ensures;

    let ghost orig = chapters@;
    let mut work = chapters;
    let mut out: Vec<ProcessedChapter> = Vec::new();
    proof {
        assert(out@.to_multiset().add(work@.to_multiset()) =~= orig.to_multiset());
    }
    while work.len() > 0
        invariant
            out@.to_multiset().add(work@.to_multiset()) == orig.to_multiset(),
            sorted_by_index(out@),
            forall|j: int, k: int|
                0 <= j < out@.len() && 0 <= k < work@.len() ==> out@[j].index <= work@[k].index,
        decreases work@.len(),
    {
        broadcast use vstd::seq_lib::group_to_multiset_ensures;

        let mut best: usize = 0;
        let mut j: usize = 1;
        while j < work.len()
            invariant
                work@.len() > 0,
                0 <= best < work@.len(),
                1 <= j <= work@.len(),
                forall|k: int| 0 <= k < j ==> work@[best as int].index <= work@[k].index,
            decreases work@.len() - j,
        {
            if work[j].index < work[best].index {
                best = j;
            }
            j += 1;
        }
        let ghost pre_out = out@;
        let ghost pre_work = work@;
        let x = work.remove(best);
        out.push(x);
        proof {
            assert(pre_work.contains(pre_work[best as int]));
            assert(pre_work.to_multiset().count(pre_work[best as int]) > 0);
            assert(out@.to_multiset() =~= pre_out.to_multiset().insert(x));
            assert(work@.to_multiset() =~= pre_work.to_multiset().remove(x));
            assert(out@.to_multiset().add(work@.to_multiset()) =~= orig.to_multiset());
            assert(forall|k: int|
                0 <= k < work@.len() ==> work@[k] == (if k < best {
                    pre_work[k]
                } else {
                    pre_work[k + 1]
                }));
        }
    }
    out
}

/// Two sequences that hold the same chapters, are both sorted by index, and
/// whose indices are pairwise distinct, are the same sequence: sorting after
/// concurrent completion has exactly one result.
pub proof fn lemma_sorted_unique(a: Seq<ProcessedChapter>, b: Seq<ProcessedChapter>)
    requires
        a.to_multiset() == b.to_multiset(),
        sorted_by_index(a),
        sorted_by_index(b),
        distinct_indices(a),
    ensures
        a == b,
    decreases a.len(),
{
    broadcast use vstd::seq_lib::group_to_multiset_ensures;

    if a.len() == 0 {
        assert(a.len() == a.to_multiset().len());
        assert(b.len() == b.to_multiset().len());
        assert(b.len() == 0);
        assert(a =~= b);
    } else {
        assert(a.len() == a.to_multiset().len());
        assert(b.len() == b.to_multiset().len());
        assert(b.len() == a.len());
        assert(b.contains(b[0]));
        assert(b.to_multiset().count(b[0]) > 0);
        assert(a.to_multiset().count(b[0]) > 0);
        assert(a.contains(b[0]));
        let ja = choose|ja: int| 0 <= ja < a.len() && a[ja] == b[0];
        assert(a[0].index <= a[ja].index);
        assert(a.contains(a[0]));
        assert(a.to_multiset().count(a[0]) > 0);
        assert(b.to_multiset().count(a[0]) > 0);
        assert(b.contains(a[0]));
        let jb = choose|jb: int| 0 <= jb < b.len() && b[jb] == a[0];
        assert(b[0].index <= b[jb].index);
        assert(a[0].index == b[0].index);
        if ja != 0 {
            assert(a[0].index != a[ja].index);
            assert(false);
        }
        assert(a[0] == b[0]);
        let at = a.drop_first();
        let bt = b.drop_first();
        assert(at =~= a.remove(0));
        assert(bt =~= b.remove(0));
        assert(at.to_multiset() =~= a.to_multiset().remove(a[0]));
        assert(bt.to_multiset() =~= b.to_multiset().remove(b[0]));
        assert(forall|k: int| 0 <= k < at.len() ==> at[k] == a[k + 1]);
        assert(forall|k: int| 0 <= k < bt.len() ==> bt[k] == b[k + 1]);
        lemma_sorted_unique(at, bt);
        assert forall|i: int| 0 <= i < a.len() implies a[i] == b[i] by {
            if i > 0 {
                assert(at[i - 1] == a[i]);
                assert(bt[i - 1] == b[i]);
                assert(at[i - 1] == bt[i - 1]);
            }
        }
        assert(a =~= b);
    }
}

/// However concurrent completion shuffles the processed chapters, any
/// index-sorted arrangement of them equals the one list that carries the
/// original matched order.
pub proof fn lemma_order_restored(
    completed: Seq<ProcessedChapter>,
    in_order: Seq<ProcessedChapter>,
    reordered: Seq<ProcessedChapter>,
)
    requires
        completed.to_multiset() == in_order.to_multiset(),
        sorted_by_index(in_order),
        distinct_indices(in_order),
        sorted_by_index(reordered),
        reordered.to_multiset() == completed.to_multiset(),
    ensures
        reordered == in_order,
{
    lemma_sorted_unique(in_order, reordered);
}

// ---------------------------------------------------------------------------
// The placeholder path never rides along as a chapter asset.
// ---------------------------------------------------------------------------

/// Every per-chapter image path differs from the shared placeholder path,
/// so the placeholder appears in the final asset set at most once — through
/// its single global entry — however many images fall back to it.
pub proof fn lemma_image_path_not_placeholder(index: int, n: int, ext: Seq<u8>)
    ensures
        spec_image_path(index, n, ext) != spec_placeholder_path(),
{
    let p = spec_image_path(index, n, ext);
    assert(img_dir_prefix().len() == 15);
    assert(p[7] == img_dir_prefix()[7]);
    assert(img_dir_prefix()[7] == 99);
    assert(spec_placeholder_path()[7] == 112);
    assert(p.len() >= 15);
    if p == spec_placeholder_path() {
        assert(p[7] == 112);
        assert(false);
    }
}

/// No asset a chapter bundles is stored under the placeholder path.
pub proof fn lemma_assets_avoid_placeholder(index: int, os: Seq<SpecOutcome>)
    ensures
        forall|k: int|
            0 <= k < spec_resolve(index, os).assets.len() ==> #[trigger] spec_resolve(
                index,
                os,
            ).assets[k].epub_path != spec_placeholder_path(),
    decreases os.len(),
{
    if os.len() > 0 {
        lemma_assets_avoid_placeholder(index, os.drop_last());
        let prev = spec_resolve(index, os.drop_last());
        match os.last().data {
            Some(bytes) => {
                lemma_image_path_not_placeholder(index, prev.n, spec_ext_bytes(bytes));
                assert(spec_resolve(index, os).assets =~= prev.assets.push(
                    SpecAsset {
                        epub_path: spec_image_path(index, prev.n, spec_ext_bytes(bytes)),
                        data: bytes,
                    },
                ));
            },
            None => {},
        }
    }
}

/// Every recorded asset, wherever its fetch settled in the outcome list, is
/// stored under the unique chapter path built from its own success ordinal
/// and the extension inferred from its own bytes — so unrecognized bytes get
/// the `jpg` default at any position, not only the last.
pub proof fn lemma_asset_paths(index: int, os: Seq<SpecOutcome>)
    ensures
        spec_resolve(index, os).n == spec_resolve(index, os).assets.len(),
        forall|j: int|
            0 <= j < spec_resolve(index, os).assets.len() ==> #[trigger] spec_resolve(
                index,
                os,
            ).assets[j].epub_path == spec_image_path(
                index,
                j,
                spec_ext_bytes(spec_resolve(index, os).assets[j].data),
            ),
    decreases os.len(),
{
    if os.len() > 0 {
        lemma_asset_paths(index, os.drop_last());
        let prev = spec_resolve(index, os.drop_last());
        match os.last().data {
            Some(bytes) => {
                let cur = spec_resolve(index, os);
                assert(cur.assets == prev.assets.push(
                    SpecAsset {
                        epub_path: spec_image_path(index, prev.n, spec_ext_bytes(bytes)),
                        data: bytes,
                    },
                ));
                assert(forall|j: int|
                    0 <= j < prev.assets.len() ==> cur.assets[j] == prev.assets[j]);
            },
            None => {},
        }
    }
}

/// A URL whose final settlement failed is mapped to the shared placeholder
/// path.
pub proof fn lemma_failed_url_maps_to_placeholder(index: int, os: Seq<SpecOutcome>, k: int)
    requires
        0 <= k < os.len(),
        os[k].data is None,
        forall|j: int| k < j < os.len() ==> os[j].url != os[k].url,
    ensures
        crate::imagemap::spec_map_get(spec_resolve(index, os).map, os[k].url) == Some(
            spec_placeholder_path(),
        ),
    decreases os.len(),
{
    let prev = spec_resolve(index, os.drop_last());
    if k == os.len() - 1 {
        crate::imagemap::lemma_map_set_get(
            prev.map,
            os[k].url,
            spec_placeholder_path(),
            os[k].url,
        );
    } else {
        assert(forall|j: int| 0 <= j < os.len() - 1 ==> os.drop_last()[j] == os[j]);
        lemma_failed_url_maps_to_placeholder(index, os.drop_last(), k);
        match os.last().data {
            Some(bytes) => {
                crate::imagemap::lemma_map_set_get(
                    prev.map,
                    os.last().url,
                    spec_image_path(index, prev.n, spec_ext_bytes(bytes)),
                    os[k].url,
                );
            },
            None => {
                crate::imagemap::lemma_map_set_get(
                    prev.map,
                    os.last().url,
                    spec_placeholder_path(),
                    os[k].url,
                );
            },
        }
    }
}

/// The extension used in a stored asset's path agrees with the public
/// magic-byte classification: a recognized PNG stores as `png`, and bytes
/// matching no known signature fall back to `jpg`.
pub proof fn lemma_extension_inference(data: Seq<u8>)
    ensures
        crate::sniff::spec_infer_extension(data) == Some("png"@) ==> spec_ext_bytes(data)
            == seq![112u8, 110u8, 103u8],
        crate::sniff::spec_infer_extension(data) == Some("gif"@) ==> spec_ext_bytes(data)
            == seq![103u8, 105u8, 102u8],
        crate::sniff::spec_infer_extension(data) is None ==> spec_ext_bytes(data) == seq![
            106u8,
            112u8,
            103u8,
        ],
{
    reveal_strlit("jpg");
    reveal_strlit("png");
    reveal_strlit("gif");
    assert("jpg"@ != "png"@ && "jpg"@ != "gif"@ && "png"@ != "gif"@) by {
        assert("jpg"@[0] == 'j' && "png"@[0] == 'p' && "gif"@[0] == 'g');
    }
}

} // verus!
