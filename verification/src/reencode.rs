use vstd::prelude::*;
use crate::imagemap::ImageMap;
use crate::rewrite::{
    name_end, rewrite_html, skip_space, spec_name_end, spec_rewrite, spec_skip_space,
};
use crate::scan::{
    byte_is_space, bytes_eq, copy_bytes, copy_range, find_arrow, find_from, is_space,
    lemma_find_arrow_bounds, lemma_find_from_bounds, lemma_tag_end_bounds, spec_find_arrow,
    spec_find_from, spec_tag_end, tag_end,
};

verus! {

/// Whether the fragment from position `i`, with the names of the currently
/// open elements on `st`, parses as strict XML through to its end: every
/// construct after a `<` is terminated, every end tag matches the most
/// recently opened element, and every element opened is closed.
pub open spec fn spec_xml_from(s: Seq<u8>, i: int, st: Seq<Seq<u8>>) -> bool
    decreases s.len() - i,
    via spec_xml_from_dec
{
    let len = s.len() as int;
    if i < 0 {
        false
    } else if i >= len {
        st.len() == 0
    } else if s[i] != 60 {
        spec_xml_from(s, i + 1, st)
    } else if i + 4 <= len && s[i + 1] == 33 && s[i + 2] == 45 && s[i + 3] == 45 {
        let e = spec_find_arrow(s, i + 4);
        if e == len {
            false
        } else {
            spec_xml_from(s, e + 3, st)
        }
    } else if i + 1 < len && (s[i + 1] == 33 || s[i + 1] == 63) {
        let g = spec_find_from(s, i + 1, 62);
        if g == len {
            false
        } else {
            spec_xml_from(s, g + 1, st)
        }
    } else if i + 1 < len && s[i + 1] == 47 {
        let g = spec_find_from(s, i + 2, 62);
        if g == len {
            false
        } else {
            let ne = spec_name_end(s, i + 2, g);
            let name = s.subrange(i + 2, ne);
            if name.len() > 0 && st.len() > 0 && st.last() == name && spec_skip_space(s, ne, g)
                == g {
                spec_xml_from(s, g + 1, st.drop_last())
            } else {
                false
            }
        }
    } else {
        let g = spec_tag_end(s, i + 1, 0);
        if g == len {
            false
        } else if i + 1 == g || is_space(s[i + 1]) || s[i + 1] == 62 {
            false
        } else {
            let ne = spec_name_end(s, i + 1, g);
            let name = s.subrange(i + 1, ne);
            if s[g - 1] == 47 {
                spec_xml_from(s, g + 1, st)
            } else {
                spec_xml_from(s, g + 1, st.push(name))
            }
        }
    }
}

#[via_fn]
proof fn spec_xml_from_dec(s: Seq<u8>, i: int, st: Seq<Seq<u8>>) {
    let len = s.len() as int;
    if 0 <= i < len && s[i] == 60 {
        if i + 4 <= len && s[i + 1] == 33 && s[i + 2] == 45 && s[i + 3] == 45 {
            lemma_find_arrow_bounds(s, i + 4);
        } else if i + 1 < len && (s[i + 1] == 33 || s[i + 1] == 63) {
            lemma_find_from_bounds(s, i + 1, 62);
        } else if i + 1 < len && s[i + 1] == 47 {
            if i + 2 <= len {
                lemma_find_from_bounds(s, i + 2, 62);
            }
        } else {
            lemma_tag_end_bounds(s, i + 1, 0);
        }
    }
}


/// The byte position of the first construct the strict scan rejects,
/// scanning from `i` with the open elements `st`: the start of the failing
/// token, or the length of `s` when the only fault is an element still open
/// at the end. When the scan accepts everything this is the length too; it
/// is read only where the scan fails.
pub open spec fn spec_xml_fail_at(s: Seq<u8>, i: int, st: Seq<Seq<u8>>) -> int
    decreases s.len() - i,
    via spec_xml_fail_at_dec
{
    let len = s.len() as int;
    if i < 0 {
        0
    } else if i >= len {
        len
    } else if s[i] != 60 {
        spec_xml_fail_at(s, i + 1, st)
    } else if i + 4 <= len && s[i + 1] == 33 && s[i + 2] == 45 && s[i + 3] == 45 {
        let e = spec_find_arrow(s, i + 4);
        if e == len {
            i
        } else {
            spec_xml_fail_at(s, e + 3, st)
        }
    } else if i + 1 < len && (s[i + 1] == 33 || s[i + 1] == 63) {
        let g = spec_find_from(s, i + 1, 62);
        if g == len {
            i
        } else {
            spec_xml_fail_at(s, g + 1, st)
        }
    } else if i + 1 < len && s[i + 1] == 47 {
        let g = spec_find_from(s, i + 2, 62);
        if g == len {
            i
        } else {
            let ne = spec_name_end(s, i + 2, g);
            let name = s.subrange(i + 2, ne);
            if name.len() > 0 && st.len() > 0 && st.last() == name && spec_skip_space(s, ne, g)
                == g {
                spec_xml_fail_at(s, g + 1, st.drop_last())
            } else {
                i
            }
        }
    } else {
        let g = spec_tag_end(s, i + 1, 0);
        if g == len {
            i
        } else if i + 1 == g || is_space(s[i + 1]) || s[i + 1] == 62 {
            i
        } else {
            let ne = spec_name_end(s, i + 1, g);
            let name = s.subrange(i + 1, ne);
            if s[g - 1] == 47 {
                spec_xml_fail_at(s, g + 1, st)
            } else {
                spec_xml_fail_at(s, g + 1, st.push(name))
            }
        }
    }
}

#[via_fn]
proof fn spec_xml_fail_at_dec(s: Seq<u8>, i: int, st: Seq<Seq<u8>>) {
    let len = s.len() as int;
    if 0 <= i < len && s[i] == 60 {
        if i + 4 <= len && s[i + 1] == 33 && s[i + 2] == 45 && s[i + 3] == 45 {
            lemma_find_arrow_bounds(s, i + 4);
        } else if i + 1 < len && (s[i + 1] == 33 || s[i + 1] == 63) {
            lemma_find_from_bounds(s, i + 1, 62);
        } else if i + 1 < len && s[i + 1] == 47 {
            if i + 2 <= len {
                lemma_find_from_bounds(s, i + 2, 62);
            }
        } else {
            lemma_tag_end_bounds(s, i + 1, 0);
        }
    }
}

/// Whether a whole fragment is strict XML: what the strict re-encoding pass
/// accepts.
pub open spec fn spec_xml_ok(s: Seq<u8>) -> bool {
    spec_xml_from(s, 0, seq![])
}

/// Re-parses a rewritten fragment as strict XML. On success the fragment is
/// returned byte for byte — the strict pass validates and re-serializes but
/// has nothing left to repair. On failure it reports the byte position of
/// the first construct the scan rejects.
pub fn re_encode_html(s: &[u8]) -> (r: Result<Vec<u8>, usize>)
    ensures
        spec_xml_ok(s@) <==> r is Ok,
        r matches Ok(v) ==> v@ == s@,
        r matches Err(p) ==> p == spec_xml_fail_at(s@, 0, seq![]) && p <= s@.len(),
{
    let len = s.len();
    let mut stack: Vec<Vec<u8>> = Vec::new();
    let ghost mut gst: Seq<Seq<u8>> = seq![];
    let mut i: usize = 0;
    while i < len
        invariant
            0 <= i <= len == s@.len(),
            gst.len() == stack@.len(),
            forall|k: int| 0 <= k < gst.len() ==> gst[k] == stack@[k]@,
            spec_xml_ok(s@) <==> spec_xml_from(s@, i as int, gst),
            spec_xml_fail_at(s@, 0, seq![]) == spec_xml_fail_at(s@, i as int, gst),
        decreases len - i,
    {
        let b = s[i];
        if b != 60 {
            i += 1;
        } else if len - i >= 4 && s[i + 1] == 33 && s[i + 2] == 45 && s[i + 3] == 45 {
            let e = find_arrow(s, i + 4);
            if e == len {
                return Err(i);
            }
            proof {
                lemma_find_arrow_bounds(s@, i + 4);
            }
            i = e + 3;
        } else if i + 1 < len && (s[i + 1] == 33 || s[i + 1] == 63) {
            let g = find_from(s, i + 1, 62);
            if g == len {
                return Err(i);
            }
            i = g + 1;
        } else if i + 1 < len && s[i + 1] == 47 {
            let g = if i + 2 <= len {
                find_from(s, i + 2, 62)
            } else {
                len
            };
            if g == len {
                return Err(i);
            }
            let ne = name_end(s, i + 2, g);
            if ne == i + 2 {
                return Err(i);
            }
            if stack.len() == 0 {
                return Err(i);
            }
            let top = &stack[stack.len() - 1];
            if !bytes_eq(top.as_slice(), &s[i + 2..ne]) {
                return Err(i);
            }
            if skip_space(s, ne, g) != g {
                return Err(i);
            }
            proof {
                assert(gst.last() == s@.subrange(i + 2, ne as int));
            }
            stack.pop();
            proof {
                gst = gst.drop_last();
            }
            i = g + 1;
        } else {
            let g = tag_end(s, i + 1);
            if g == len {
                return Err(i);
            }
            if i + 1 == g || byte_is_space(s[i + 1]) || s[i + 1] == 62 {
                return Err(i);
            }
            let ne = name_end(s, i + 1, g);
            if s[g - 1] == 47 {
                i = g + 1;
            } else {
                let name = copy_range(s, i + 1, ne);
                stack.push(name);
                proof {
                    gst = gst.push(s@.subrange(i + 1, ne as int));
                }
                i = g + 1;
            }
        }
    }
    if stack.len() == 0 {
        proof {
            assert(spec_xml_from(s@, i as int, gst));
        }
        Ok(copy_bytes(s))
    } else {
        proof {
            assert(!spec_xml_from(s@, i as int, gst));
        }
        Err(len)
    }
}

/// The two-pass transform of one chapter fragment: the tolerant streaming
/// rewrite, then the strict re-encoding. `Ok` holds the cleaned fragment;
/// `Err` holds the byte position, in the rewritten fragment, of the first
/// construct the strict pass rejects.
pub fn rewrite_and_clean_html(html_in: &[u8], embed_images: bool, image_map: &ImageMap) -> (r:
    Result<Vec<u8>, usize>)
    ensures
        spec_xml_ok(spec_rewrite(html_in@, embed_images, image_map@)) <==> r is Ok,
        r matches Ok(v) ==> v@ == spec_rewrite(html_in@, embed_images, image_map@),
        r matches Err(p) ==> p == spec_xml_fail_at(
            spec_rewrite(html_in@, embed_images, image_map@),
            0,
            seq![],
        ) && p <= spec_rewrite(html_in@, embed_images, image_map@).len(),
{
    let rewritten = rewrite_html(html_in, embed_images, image_map);
    re_encode_html(rewritten.as_slice())
}

} // verus!
