use vstd::prelude::*;
use crate::error::AppError;
use crate::scan::{find_from, is_digit, lemma_find_from_bounds, spec_find_from};

verus! {

// ---------------------------------------------------------------------------
// Decimal chapter ids.
// ---------------------------------------------------------------------------

/// Whether every byte is an ASCII decimal digit.
pub open spec fn all_digits(s: Seq<u8>) -> bool {
    forall|k: int| 0 <= k < s.len() ==> is_digit(s[k])
}

/// The integer value of a digit string, most significant digit first.
pub open spec fn digits_val(s: Seq<u8>) -> int
    decreases s.len(),
{
    if s.len() == 0 {
        0
    } else {
        digits_val(s.drop_last()) * 10 + (s.last() - 48)
    }
}

pub open spec fn spec_parse_digits(d: Seq<u8>, neg: bool) -> Option<i64> {
    if d.len() == 0 || !all_digits(d) {
        None
    } else {
        let v = if neg {
            -digits_val(d)
        } else {
            digits_val(d)
        };
        if i64::MIN as int <= v <= i64::MAX as int {
            Some(v as i64)
        } else {
            None
        }
    }
}

/// The signed decimal integer a byte string denotes — an optional `+` or `-`
/// sign, then one or more digits and nothing else, within the 64-bit signed
/// range — or `None`.
pub open spec fn spec_parse_i64(s: Seq<u8>) -> Option<i64> {
    if s.len() > 0 && (s[0] == 43 || s[0] == 45) {
        spec_parse_digits(s.drop_first(), s[0] == 45)
    } else {
        spec_parse_digits(s, false)
    }
}

proof fn lemma_digits_nonneg(d: Seq<u8>)
    requires
        all_digits(d),
    ensures
        digits_val(d) >= 0,
    decreases d.len(),
{
    if d.len() > 0 {
        assert(all_digits(d.drop_last()));
        lemma_digits_nonneg(d.drop_last());
    }
}

/// The value of a digit string only grows as digits are appended.
proof fn lemma_digits_prefix_le(d: Seq<u8>, j: int)
    requires
        all_digits(d),
        0 <= j <= d.len(),
    ensures
        digits_val(d.take(j)) <= digits_val(d),
    decreases d.len() - j,
{
    if j < d.len() {
        assert(all_digits(d.take(j)));
        lemma_digits_nonneg(d.take(j));
        assert(d.take(j + 1).drop_last() =~= d.take(j));
        assert(d.take(j + 1).last() == d[j]);
        assert(digits_val(d.take(j + 1)) == digits_val(d.take(j)) * 10 + (d[j] - 48));
        lemma_digits_prefix_le(d, j + 1);
    } else {
        assert(d.take(j) =~= d);
    }
}

/// Parses a byte string as a signed 64-bit decimal integer, exactly as the
/// standard decimal grammar has it: optional sign, digits only, in range.
pub fn parse_i64(s: &[u8]) -> (r: Option<i64>)
    ensures
        r == spec_parse_i64(s@),
{
    let len = s.len();
    let neg: bool;
    let start: usize;
    if len > 0 && (s[0] == 43 || s[0] == 45) {
        neg = s[0] == 45;
        start = 1;
    } else {
        neg = false;
        start = 0;
    }
    let ghost digits = if start == 1 {
        s@.drop_first()
    } else {
        s@
    };
    proof {
        assert(digits =~= s@.subrange(start as int, len as int));
    }
    if start >= len {
        return None;
    }
    let mut acc: i128 = 0;
    let mut k: usize = start;
    while k < len
        invariant
            start <= k <= len == s@.len(),
            digits =~= s@.subrange(start as int, len as int),
            spec_parse_i64(s@) == spec_parse_digits(digits, neg),
            all_digits(s@.subrange(start as int, k as int)),
            acc == digits_val(s@.subrange(start as int, k as int)),
            0 <= acc <= 0x8000_0000_0000_0000i128,
        decreases len - k,
    {
        let b = s[k];
        if !(48 <= b && b <= 57) {
            proof {
                assert(!is_digit(digits[k - start]));
            }
            return None;
        }
        acc = acc * 10 + ((b - 48) as i128);
        proof {
            assert(s@.subrange(start as int, k + 1).drop_last() =~= s@.subrange(
                start as int,
                k as int,
            ));
            assert(s@.subrange(start as int, k + 1).last() == s@[k as int]);
        }
        if acc > 0x8000_0000_0000_0000i128 {
            proof {
                if all_digits(digits) {
                    assert(digits.take(k + 1 - start) =~= s@.subrange(start as int, k + 1));
                    lemma_digits_prefix_le(digits, k + 1 - start);
                }
            }
            return None;
        }
        k += 1;
    }
    proof {
        assert(s@.subrange(start as int, len as int) =~= digits);
    }
    if neg {
        Some((-acc) as i64)
    } else {
        if acc > 0x7fff_ffff_ffff_ffffi128 {
            None
        } else {
            Some(acc as i64)
        }
    }
}

// ---------------------------------------------------------------------------
// Entry names.
// ---------------------------------------------------------------------------

/// The last path segment of an entry name: everything after the final `/`.
pub open spec fn spec_basename(s: Seq<u8>) -> Seq<u8>
    decreases s.len(),
    via spec_basename_dec
{
    let j = spec_find_from(s, 0, 47);
    if j == s.len() {
        s
    } else {
        spec_basename(s.subrange(j + 1, s.len() as int))
    }
}

#[via_fn]
proof fn spec_basename_dec(s: Seq<u8>) {
    lemma_find_from_bounds(s, 0, 47);
}

/// The last path segment of an entry name.
pub fn basename(s: &[u8]) -> (r: &[u8])
    ensures
        r@ == spec_basename(s@),
    decreases s@.len(),
{
    let j = find_from(s, 0, 47);
    if j == s.len() {
        s
    } else {
        basename(&s[j + 1..s.len()])
    }
}

// ---------------------------------------------------------------------------
// The id → raw-HTML map drawn from the archive.
// ---------------------------------------------------------------------------

/// The value bound to `id` in an association list, or `None`.
pub open spec fn spec_cmap_get(m: Seq<(i64, Seq<u8>)>, id: i64) -> Option<Seq<u8>>
    decreases m.len(),
{
    if m.len() == 0 {
        None
    } else if m[0].0 == id {
        Some(m[0].1)
    } else {
        spec_cmap_get(m.drop_first(), id)
    }
}

/// The list after binding `id` to `html`, replacing an earlier binding of
/// the same id: a duplicate id in the archive overwrites, last wins.
pub open spec fn spec_cmap_set(m: Seq<(i64, Seq<u8>)>, id: i64, html: Seq<u8>) -> Seq<
    (i64, Seq<u8>),
>
    decreases m.len(),
{
    if m.len() == 0 {
        seq![(id, html)]
    } else if m[0].0 == id {
        seq![(id, html)] + m.drop_first()
    } else {
        seq![m[0]] + spec_cmap_set(m.drop_first(), id, html)
    }
}

/// The list after taking the first binding of `id` out.
pub open spec fn spec_cmap_remove(m: Seq<(i64, Seq<u8>)>, id: i64) -> Seq<(i64, Seq<u8>)>
    decreases m.len(),
{
    if m.len() == 0 {
        m
    } else if m[0].0 == id {
        m.drop_first()
    } else {
        seq![m[0]] + spec_cmap_remove(m.drop_first(), id)
    }
}

/// The chapter-id → raw-HTML map built once from the archive; entries are
/// taken out as chapters are matched.
pub struct RawChapterMap {
    entries: Vec<(i64, Vec<u8>)>,
}

impl View for RawChapterMap {
    type V = Seq<(i64, Seq<u8>)>;

    closed spec fn view(&self) -> Seq<(i64, Seq<u8>)> {
        Seq::new(self.entries@.len(), |k: int| (self.entries@[k].0, self.entries@[k].1@))
    }
}

impl RawChapterMap {
    /// An empty map.
    pub fn new() -> (r: RawChapterMap)
        ensures
            r@ == Seq::<(i64, Seq<u8>)>::empty(),
    {
        let r = RawChapterMap { entries: Vec::new() };
        proof {
            assert(r@ =~= Seq::<(i64, Seq<u8>)>::empty());
        }
        r
    }

    /// The number of stored chapters.
    pub fn len(&self) -> (r: usize)
        ensures
            r == self@.len(),
    {
        self.entries.len()
    }

    /// Binds `id` to `html`, replacing any earlier binding of the same id.
    pub fn set(&mut self, id: i64, html: Vec<u8>)
        ensures
            final(self)@ == spec_cmap_set(old(self)@, id, html@),
    {
        let ghost orig = self@;
        let mut k: usize = 0;
        while k < self.entries.len()
            invariant
                0 <= k <= self.entries@.len(),
                self@ == orig,
                orig == old(self)@,
                forall|j: int| 0 <= j < k ==> orig[j].0 != id,
            decreases self.entries@.len() - k,
        {
            if self.entries[k].0 == id {
                proof {
                    assert(orig[k as int].0 == id);
                }
                self.entries.remove(k);
                self.entries.insert(k, (id, html));
                proof {
                    assert(self@ =~= orig.update(k as int, (id, html@)));
                    lemma_cmap_set_middle(orig, self@, k as int, id, html@);
                }
                return;
            }
            k += 1;
        }
        self.entries.push((id, html));
        proof {
            lemma_cmap_set_append(orig, self@, id, html@);
        }
    }

    /// Takes the binding of `id` out, handing its raw HTML over.
    pub fn remove(&mut self, id: i64) -> (r: Option<Vec<u8>>)
        ensures
            match r {
                Some(v) => spec_cmap_get(old(self)@, id) == Some(v@) && final(self)@
                    == spec_cmap_remove(old(self)@, id),
                None => spec_cmap_get(old(self)@, id) is None && final(self)@ == old(self)@,
            },
    {
        let ghost orig = self@;
        let mut k: usize = 0;
        while k < self.entries.len()
            invariant
                0 <= k <= self.entries@.len(),
                self@ == orig,
                orig == old(self)@,
                forall|j: int| 0 <= j < k ==> orig[j].0 != id,
            decreases self.entries@.len() - k,
        {
            if self.entries[k].0 == id {
                proof {
                    assert(orig[k as int].0 == id);
                }
                let pair = self.entries.remove(k);
                proof {
                    assert(self@ =~= orig.remove(k as int));
                    lemma_cmap_remove_middle(orig, self@, k as int, id);
                    lemma_cmap_get_at(orig, k as int, id);
                }
                return Some(pair.1);
            }
            k += 1;
        }
        proof {
            lemma_cmap_get_absent(orig, id);
        }
        None
    }
}

proof fn lemma_cmap_set_middle(
    orig: Seq<(i64, Seq<u8>)>,
    now: Seq<(i64, Seq<u8>)>,
    k: int,
    id: i64,
    html: Seq<u8>,
)
    requires
        0 <= k < orig.len(),
        now =~= orig.update(k, (id, html)),
        orig[k].0 == id,
        forall|j: int| 0 <= j < k ==> orig[j].0 != id,
    ensures
        now == spec_cmap_set(orig, id, html),
    decreases k,
{
    if k == 0 {
        assert(spec_cmap_set(orig, id, html) =~= seq![(id, html)] + orig.drop_first());
        assert(now =~= seq![(id, html)] + orig.drop_first());
    } else {
        assert(now.drop_first() =~= orig.drop_first().update(k - 1, (id, html)));
        assert(forall|j: int| 0 <= j < k - 1 ==> orig.drop_first()[j] == orig[j + 1]);
        lemma_cmap_set_middle(orig.drop_first(), now.drop_first(), k - 1, id, html);
        assert(now =~= seq![orig[0]] + now.drop_first());
    }
}

proof fn lemma_cmap_set_append(
    orig: Seq<(i64, Seq<u8>)>,
    now: Seq<(i64, Seq<u8>)>,
    id: i64,
    html: Seq<u8>,
)
    requires
        now =~= orig.push((id, html)),
        forall|j: int| 0 <= j < orig.len() ==> orig[j].0 != id,
    ensures
        now == spec_cmap_set(orig, id, html),
    decreases orig.len(),
{
    if orig.len() == 0 {
        assert(now =~= seq![(id, html)]);
    } else {
        assert(now.drop_first() =~= orig.drop_first().push((id, html)));
        assert(forall|j: int| 0 <= j < orig.len() - 1 ==> orig.drop_first()[j] == orig[j + 1]);
        lemma_cmap_set_append(orig.drop_first(), now.drop_first(), id, html);
        assert(now =~= seq![orig[0]] + now.drop_first());
    }
}

proof fn lemma_cmap_remove_middle(
    orig: Seq<(i64, Seq<u8>)>,
    now: Seq<(i64, Seq<u8>)>,
    k: int,
    id: i64,
)
    requires
        0 <= k < orig.len(),
        now =~= orig.remove(k),
        orig[k].0 == id,
        forall|j: int| 0 <= j < k ==> orig[j].0 != id,
    ensures
        now == spec_cmap_remove(orig, id),
    decreases k,
{
    if k == 0 {
        assert(now =~= orig.drop_first());
    } else {
        assert(now.drop_first() =~= orig.drop_first().remove(k - 1));
        assert(forall|j: int| 0 <= j < k - 1 ==> orig.drop_first()[j] == orig[j + 1]);
        lemma_cmap_remove_middle(orig.drop_first(), now.drop_first(), k - 1, id);
        assert(now =~= seq![orig[0]] + now.drop_first());
    }
}

proof fn lemma_cmap_get_at(orig: Seq<(i64, Seq<u8>)>, k: int, id: i64)
    requires
        0 <= k < orig.len(),
        orig[k].0 == id,
        forall|j: int| 0 <= j < k ==> orig[j].0 != id,
    ensures
        spec_cmap_get(orig, id) == Some(orig[k].1),
    decreases k,
{
    if k > 0 {
        assert(forall|j: int| 0 <= j < k - 1 ==> orig.drop_first()[j] == orig[j + 1]);
        lemma_cmap_get_at(orig.drop_first(), k - 1, id);
    }
}

proof fn lemma_cmap_get_absent(orig: Seq<(i64, Seq<u8>)>, id: i64)
    requires
        forall|j: int| 0 <= j < orig.len() ==> orig[j].0 != id,
    ensures
        spec_cmap_get(orig, id) is None,
    decreases orig.len(),
{
    if orig.len() > 0 {
        assert(forall|j: int| 0 <= j < orig.len() - 1 ==> orig.drop_first()[j] == orig[j + 1]);
        lemma_cmap_get_absent(orig.drop_first(), id);
    }
}

// ---------------------------------------------------------------------------
// From archive bytes to the chapter map.
// ---------------------------------------------------------------------------

/// Whether the bytes parse as a zip archive whose entries can all be opened
/// and their names listed.
pub uninterp spec fn zip_archive_ok(data: Seq<u8>) -> bool;

/// The full path names of the archive's entries, in archive order.
pub uninterp spec fn zip_names_of(data: Seq<u8>) -> Seq<Seq<u8>>;

/// Relies on zip::ZipArchive::new, len and by_index, and on ZipFile::name:
/// whether the bytes parse as an archive and what each entry is named depend
/// on the bytes alone; malformed input yields an error, never a panic.
#[verifier::external_body]
fn read_zip_names(data: &[u8]) -> (r: Result<Vec<Vec<u8>>, AppError>)
    ensures
        r is Ok <==> zip_archive_ok(data@),
        r matches Ok(ns) ==> crate::rewrite::vecs_view(ns@) == zip_names_of(data@),
        r matches Err(e) ==> e == AppError::IoError,
{
    let cursor = std::io::Cursor::new(data);
    let mut archive = zip::ZipArchive::new(cursor).map_err(|_| AppError::IoError)?;
    let mut out: Vec<Vec<u8>> = Vec::new();
    for i in 0..archive.len() {
        let file = archive.by_index(i).map_err(|_| AppError::IoError)?;
        out.push(file.name().as_bytes().to_vec());
    }
    Ok(out)
}

/// Whether entry `index` of the archive decompresses to valid UTF-8 text.
pub uninterp spec fn zip_text_ok(data: Seq<u8>, index: int) -> bool;

/// The text of entry `index`, as its UTF-8 bytes.
pub uninterp spec fn zip_text_of(data: Seq<u8>, index: int) -> Seq<u8>;

/// Relies on zip::ZipArchive::by_index and std's Read::read_to_string: the
/// entry's decompressed text, and whether reading it succeeds, are functions
/// of the archive bytes and the index alone; a structure, decompression or
/// UTF-8 failure yields an error, never a panic.
#[verifier::external_body]
fn read_zip_entry_text(data: &[u8], index: usize) -> (r: Result<Vec<u8>, AppError>)
    ensures
        r is Ok <==> zip_text_ok(data@, index as int),
        r matches Ok(v) ==> v@ == zip_text_of(data@, index as int),
        r matches Err(e) ==> e == AppError::IoError,
{
    let cursor = std::io::Cursor::new(data);
    let mut archive = zip::ZipArchive::new(cursor).map_err(|_| AppError::IoError)?;
    let mut file = archive.by_index(index).map_err(|_| AppError::IoError)?;
    let mut contents = String::new();
    std::io::Read::read_to_string(&mut file, &mut contents).map_err(|_| AppError::IoError)?;
    Ok(contents.into_bytes())
}

/// The chapter id an entry name carries: its basename read as an integer.
/// Entries without one are skipped, and their contents are never read.
pub open spec fn spec_entry_id(name: Seq<u8>) -> Option<i64> {
    spec_parse_i64(spec_basename(name))
}

/// The chapter map after the first `k` archive entries: each entry whose
/// basename parses as an integer is stored under that id with its text,
/// a later duplicate id overwriting an earlier one; other entries are
/// skipped, not reported.
pub open spec fn spec_cmap_upto(data: Seq<u8>, names: Seq<Seq<u8>>, k: int) -> Seq<(i64, Seq<u8>)>
    decreases k,
{
    if k <= 0 {
        seq![]
    } else {
        let prev = spec_cmap_upto(data, names, k - 1);
        match spec_entry_id(names[k - 1]) {
            Some(id) => spec_cmap_set(prev, id, zip_text_of(data, k - 1)),
            None => prev,
        }
    }
}

/// Whether every integer-named entry among the first `k` reads as UTF-8
/// text.
pub open spec fn spec_texts_ok(data: Seq<u8>, names: Seq<Seq<u8>>, k: int) -> bool {
    forall|j: int| 0 <= j < k && spec_entry_id(names[j]) is Some ==> zip_text_ok(data, j)
}

/// The chapter map the archive's bytes yield.
pub open spec fn spec_chapter_map_of(data: Seq<u8>) -> Seq<(i64, Seq<u8>)> {
    spec_cmap_upto(data, zip_names_of(data), zip_names_of(data).len() as int)
}

/// When extraction is owed success: the bytes parse as an archive, and every
/// integer-named entry decodes as UTF-8 text.
pub open spec fn spec_extract_ok(data: Seq<u8>) -> bool {
    zip_archive_ok(data) && spec_texts_ok(
        data,
        zip_names_of(data),
        zip_names_of(data).len() as int,
    )
}

/// Parses the downloaded archive into the chapter-id → raw-HTML map.
/// Succeeds exactly when the bytes are a readable archive whose integer-named
/// entries all decode; any archive-structure or decode error is fatal to the
/// whole conversion. An entry is decoded only after its basename parses as a
/// chapter id, so text that a skipped entry holds is never read.
pub fn extract_chapters(zip_bytes: &[u8]) -> (r: Result<RawChapterMap, AppError>)
    ensures
        r is Ok <==> spec_extract_ok(zip_bytes@),
        r matches Ok(m) ==> m@ == spec_chapter_map_of(zip_bytes@),
        r matches Err(e) ==> e == AppError::IoError,
{
    let names = match read_zip_names(zip_bytes) {
        Ok(ns) => ns,
        Err(e) => {
            return Err(e);
        },
    };
    let ghost nv = crate::rewrite::vecs_view(names@);
    let mut map = RawChapterMap::new();
    let mut k: usize = 0;
    while k < names.len()
        invariant
            0 <= k <= names@.len(),
            nv == crate::rewrite::vecs_view(names@),
            nv == zip_names_of(zip_bytes@),
            zip_archive_ok(zip_bytes@),
            map@ == spec_cmap_upto(zip_bytes@, nv, k as int),
            spec_texts_ok(zip_bytes@, nv, k as int),
        decreases names@.len() - k,
    {
        proof {
            assert(nv[k as int] == names@[k as int]@);
        }
        let name = basename(names[k].as_slice());
        match parse_i64(name) {
            Some(id) => {
                match read_zip_entry_text(zip_bytes, k) {
                    Ok(text) => {
                        map.set(id, text);
                    },
                    Err(e) => {
                        proof {
                            assert(spec_entry_id(nv[k as int]) is Some);
                            assert(!zip_text_ok(zip_bytes@, k as int));
                            assert(!spec_texts_ok(zip_bytes@, nv, nv.len() as int));
                        }
                        return Err(e);
                    },
                }
            },
            None => {},
        }
        k += 1;
    }
    Ok(map)
}

} // verus!
