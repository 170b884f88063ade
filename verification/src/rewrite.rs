use vstd::prelude::*;
use crate::imagemap::{spec_map_get, ImageMap};
use crate::scan::{
    byte_is_alpha, byte_is_space, copy_range, is_alpha, is_space, lower_byte, lower_bytes,
    lower_eq, push_bytes, push_range,
};

verus! {

// ---------------------------------------------------------------------------
// Bounded scanning helpers over the interior of one tag.
// ---------------------------------------------------------------------------

/// First position in `[i, end)` holding a non-whitespace byte, or `end`.
pub open spec fn spec_skip_space(s: Seq<u8>, i: int, end: int) -> int
    decreases end - i,
{
    if i < 0 || i >= end || end > s.len() {
        end
    } else if is_space(s[i]) {
        spec_skip_space(s, i + 1, end)
    } else {
        i
    }
}

/// First position in `[i, end)` where an attribute or tag name stops:
/// whitespace, `=` or `/`; or `end`.
pub open spec fn spec_name_end(s: Seq<u8>, i: int, end: int) -> int
    decreases end - i,
{
    if i < 0 || i >= end || end > s.len() {
        end
    } else if is_space(s[i]) || s[i] == 61 || s[i] == 47 {
        i
    } else {
        spec_name_end(s, i + 1, end)
    }
}

/// First position in `[i, end)` holding byte `t`, or `end`.
pub open spec fn spec_find_until(s: Seq<u8>, i: int, end: int, t: u8) -> int
    decreases end - i,
{
    if i < 0 || i >= end || end > s.len() {
        end
    } else if s[i] == t {
        i
    } else {
        spec_find_until(s, i + 1, end, t)
    }
}

/// First position in `[i, end)` holding a whitespace byte, or `end`:
/// where an unquoted attribute value stops.
pub open spec fn spec_space_end(s: Seq<u8>, i: int, end: int) -> int
    decreases end - i,
{
    if i < 0 || i >= end || end > s.len() {
        end
    } else if is_space(s[i]) {
        i
    } else {
        spec_space_end(s, i + 1, end)
    }
}

pub proof fn lemma_skip_space_bounds(s: Seq<u8>, i: int, end: int)
    requires
        0 <= i <= end <= s.len(),
    ensures
        i <= spec_skip_space(s, i, end) <= end,
        spec_skip_space(s, i, end) < end ==> !is_space(s[spec_skip_space(s, i, end)]),
    decreases end - i,
{
    if i < end && is_space(s[i]) {
        lemma_skip_space_bounds(s, i + 1, end);
    }
}

pub proof fn lemma_name_end_bounds(s: Seq<u8>, i: int, end: int)
    requires
        0 <= i <= end <= s.len(),
    ensures
        i <= spec_name_end(s, i, end) <= end,
        forall|k: int|
            i <= k < spec_name_end(s, i, end) ==> !(is_space(s[k]) || s[k] == 61 || s[k] == 47),
    decreases end - i,
{
    if i < end && !(is_space(s[i]) || s[i] == 61 || s[i] == 47) {
        lemma_name_end_bounds(s, i + 1, end);
    }
}

pub proof fn lemma_find_until_bounds(s: Seq<u8>, i: int, end: int, t: u8)
    requires
        0 <= i <= end <= s.len(),
    ensures
        i <= spec_find_until(s, i, end, t) <= end,
    decreases end - i,
{
    if i < end && s[i] != t {
        lemma_find_until_bounds(s, i + 1, end, t);
    }
}

pub proof fn lemma_space_end_bounds(s: Seq<u8>, i: int, end: int)
    requires
        0 <= i <= end <= s.len(),
    ensures
        i <= spec_space_end(s, i, end) <= end,
    decreases end - i,
{
    if i < end && !is_space(s[i]) {
        lemma_space_end_bounds(s, i + 1, end);
    }
}

pub fn skip_space(s: &[u8], from: usize, end: usize) -> (r: usize)
    requires
        from <= end <= s@.len(),
    ensures
        r == spec_skip_space(s@, from as int, end as int),
        from <= r <= end,
{
    let mut i: usize = from;
    while i < end
        invariant
            from <= i <= end <= s@.len(),
            spec_skip_space(s@, from as int, end as int) == spec_skip_space(s@, i as int, end as int),
        decreases end - i,
    {
        if !byte_is_space(s[i]) {
            return i;
        }
        i += 1;
    }
    i
}

pub fn name_end(s: &[u8], from: usize, end: usize) -> (r: usize)
    requires
        from <= end <= s@.len(),
    ensures
        r == spec_name_end(s@, from as int, end as int),
        from <= r <= end,
{
    let mut i: usize = from;
    while i < end
        invariant
            from <= i <= end <= s@.len(),
            spec_name_end(s@, from as int, end as int) == spec_name_end(s@, i as int, end as int),
        decreases end - i,
    {
        let b = s[i];
        if byte_is_space(b) || b == 61 || b == 47 {
            return i;
        }
        i += 1;
    }
    i
}

pub fn find_until(s: &[u8], from: usize, end: usize, t: u8) -> (r: usize)
    requires
        from <= end <= s@.len(),
    ensures
        r == spec_find_until(s@, from as int, end as int, t),
        from <= r <= end,
{
    let mut i: usize = from;
    while i < end
        invariant
            from <= i <= end <= s@.len(),
            spec_find_until(s@, from as int, end as int, t) == spec_find_until(
                s@,
                i as int,
                end as int,
                t,
            ),
        decreases end - i,
    {
        if s[i] == t {
            return i;
        }
        i += 1;
    }
    i
}

pub fn space_end(s: &[u8], from: usize, end: usize) -> (r: usize)
    requires
        from <= end <= s@.len(),
    ensures
        r == spec_space_end(s@, from as int, end as int),
        from <= r <= end,
{
    let mut i: usize = from;
    while i < end
        invariant
            from <= i <= end <= s@.len(),
            spec_space_end(s@, from as int, end as int) == spec_space_end(s@, i as int, end as int),
        decreases end - i,
    {
        if byte_is_space(s[i]) {
            return i;
        }
        i += 1;
    }
    i
}

// ---------------------------------------------------------------------------
// Attributes of one tag.
// ---------------------------------------------------------------------------

/// One attribute as the specification sees it: the name as written in the
/// source, and the raw (unescaped) value; an attribute without a value has
/// the empty value.
pub ghost struct SpecAttr {
    pub name: Seq<u8>,
    pub value: Seq<u8>,
}

/// One attribute of a parsed tag.
pub struct Attr {
    pub name: Vec<u8>,
    pub value: Vec<u8>,
}

impl View for Attr {
    type V = SpecAttr;

    open spec fn view(&self) -> SpecAttr {
        SpecAttr { name: self.name@, value: self.value@ }
    }
}

pub open spec fn attrs_view(s: Seq<Attr>) -> Seq<SpecAttr> {
    Seq::new(s.len(), |k: int| s[k]@)
}

/// The attributes written in the tag interior `[i, end)`, in source order.
/// A `/` outside a value is skipped like whitespace; a quoted value runs to
/// its closing quote (or to the end of the tag when unterminated); an
/// unquoted value runs to the next whitespace.
pub open spec fn spec_parse_attrs(s: Seq<u8>, i: int, end: int) -> Seq<SpecAttr>
    decreases end - i,
    via spec_parse_attrs_dec
{
    if i < 0 || i >= end || end > s.len() {
        seq![]
    } else if is_space(s[i]) || s[i] == 47 || s[i] == 61 {
        spec_parse_attrs(s, i + 1, end)
    } else {
        let ne = spec_name_end(s, i, end);
        let name = s.subrange(i, ne);
        let ws = spec_skip_space(s, ne, end);
        if ws < end && s[ws] == 61 {
            let vs = spec_skip_space(s, ws + 1, end);
            if vs < end && (s[vs] == 34 || s[vs] == 39) {
                let vend = spec_find_until(s, vs + 1, end, s[vs]);
                let a = SpecAttr { name, value: s.subrange(vs + 1, vend) };
                seq![a] + spec_parse_attrs(s, if vend < end { vend + 1 } else { end }, end)
            } else {
                let vend = spec_space_end(s, vs, end);
                let a = SpecAttr { name, value: s.subrange(vs, vend) };
                seq![a] + spec_parse_attrs(s, vend, end)
            }
        } else {
            seq![SpecAttr { name, value: seq![] }] + spec_parse_attrs(s, ws, end)
        }
    }
}

#[via_fn]
proof fn spec_parse_attrs_dec(s: Seq<u8>, i: int, end: int) {
    if !(i < 0 || i >= end || end > s.len()) && !(is_space(s[i]) || s[i] == 47 || s[i] == 61) {
        let ne = spec_name_end(s, i, end);
        assert(ne == spec_name_end(s, i + 1, end));
        lemma_name_end_bounds(s, i + 1, end);
        let ws = spec_skip_space(s, ne, end);
        lemma_skip_space_bounds(s, ne, end);
        if ws < end && s[ws] == 61 {
            let vs = spec_skip_space(s, ws + 1, end);
            lemma_skip_space_bounds(s, ws + 1, end);
            if vs < end && (s[vs] == 34 || s[vs] == 39) {
                let vend = spec_find_until(s, vs + 1, end, s[vs]);
                lemma_find_until_bounds(s, vs + 1, end, s[vs]);
            } else {
                let vend = spec_space_end(s, vs, end);
                if vs < end {
                    assert(!is_space(s[vs]));
                    assert(vend == spec_space_end(s, vs + 1, end));
                    lemma_space_end_bounds(s, vs + 1, end);
                }
            }
        }
    }
}

/// Parses the attributes in the tag interior `[start, end)`.
pub fn parse_attrs(s: &[u8], start: usize, end: usize) -> (r: Vec<Attr>)
    requires
        start <= end <= s@.len(),
    ensures
        attrs_view(r@) == spec_parse_attrs(s@, start as int, end as int),
{
    let mut r: Vec<Attr> = Vec::new();
    let mut i: usize = start;
    proof {
        assert(attrs_view(r@) =~= Seq::<SpecAttr>::empty());
    }
    while i < end
        invariant
            start <= i <= end <= s@.len(),
            spec_parse_attrs(s@, start as int, end as int) == attrs_view(r@) + spec_parse_attrs(
                s@,
                i as int,
                end as int,
            ),
        decreases end - i,
    {
        let b = s[i];
        if byte_is_space(b) || b == 47 || b == 61 {
            i += 1;
        } else {
            let ne = name_end(s, i, end);
            let ws = skip_space(s, ne, end);
            let ghost prev = r@;
            let mut next: usize;
            if ws < end && s[ws] == 61 {
                let vs = skip_space(s, ws + 1, end);
                if vs < end && (s[vs] == 34 || s[vs] == 39) {
                    let vend = find_until(s, vs + 1, end, s[vs]);
                    r.push(Attr { name: copy_range(s, i, ne), value: copy_range(s, vs + 1, vend) });
                    next = if vend < end { vend + 1 } else { end };
                } else {
                    let vend = space_end(s, vs, end);
                    r.push(Attr { name: copy_range(s, i, ne), value: copy_range(s, vs, vend) });
                    next = vend;
                    proof {
                        if vs < end {
                            lemma_skip_space_bounds(s@, ws + 1, end as int);
                            assert(spec_space_end(s@, vs as int, end as int) == spec_space_end(
                                s@,
                                vs + 1,
                                end as int,
                            ));
                            lemma_space_end_bounds(s@, vs + 1, end as int);
                        }
                    }
                }
            } else {
                r.push(Attr { name: copy_range(s, i, ne), value: Vec::new() });
                next = ws;
            }
            proof {
                assert(attrs_view(r@) =~= attrs_view(prev) + seq![r@.last()@]);
                assert(spec_parse_attrs(s@, i as int, end as int) == seq![r@.last()@]
                    + spec_parse_attrs(s@, next as int, end as int));
                assert(attrs_view(r@) + spec_parse_attrs(s@, next as int, end as int)
                    =~= (attrs_view(prev) + spec_parse_attrs(s@, i as int, end as int)));
            }
            assert(i < next);
            i = next;
        }
    }
    proof {
        assert(attrs_view(r@) + spec_parse_attrs(s@, i as int, end as int) =~= attrs_view(r@));
    }
    r
}

// ---------------------------------------------------------------------------
// Queries and edits on an attribute list.
// ---------------------------------------------------------------------------

/// The value of the first attribute whose lower-cased name is `lname`.
pub open spec fn spec_attrs_get(attrs: Seq<SpecAttr>, lname: Seq<u8>) -> Option<Seq<u8>>
    decreases attrs.len(),
{
    if attrs.len() == 0 {
        None
    } else if lower_bytes(attrs[0].name) == lname {
        Some(attrs[0].value)
    } else {
        spec_attrs_get(attrs.drop_first(), lname)
    }
}

/// The attribute list without every attribute whose lower-cased name is
/// `lname`.
pub open spec fn spec_attrs_remove(attrs: Seq<SpecAttr>, lname: Seq<u8>) -> Seq<SpecAttr>
    decreases attrs.len(),
{
    if attrs.len() == 0 {
        seq![]
    } else if lower_bytes(attrs[0].name) == lname {
        spec_attrs_remove(attrs.drop_first(), lname)
    } else {
        seq![attrs[0]] + spec_attrs_remove(attrs.drop_first(), lname)
    }
}

/// One attribute after image-source substitution: when embedding is on and
/// the attribute is `src` with a mapped URL as its value, the value becomes
/// the mapped package path; anything else is untouched.
pub open spec fn spec_src_attr(
    a: SpecAttr,
    embed: bool,
    m: Seq<(Seq<u8>, Seq<u8>)>,
) -> SpecAttr {
    if embed && lower_bytes(a.name) == n_src() {
        match spec_map_get(m, a.value) {
            Some(p) => SpecAttr { name: a.name, value: p },
            None => a,
        }
    } else {
        a
    }
}

/// Image-source substitution applied to every attribute.
pub open spec fn spec_map_src(
    attrs: Seq<SpecAttr>,
    embed: bool,
    m: Seq<(Seq<u8>, Seq<u8>)>,
) -> Seq<SpecAttr>
    decreases attrs.len(),
{
    if attrs.len() == 0 {
        seq![]
    } else {
        seq![spec_src_attr(attrs[0], embed, m)] + spec_map_src(attrs.drop_first(), embed, m)
    }
}

pub fn attrs_get<'a>(attrs: &'a Vec<Attr>, lname: &[u8]) -> (r: Option<&'a Vec<u8>>)
    ensures
        match r {
            Some(v) => spec_attrs_get(attrs_view(attrs@), lname@) == Some(v@),
            None => spec_attrs_get(attrs_view(attrs@), lname@) is None,
        },
{
    let ghost whole = attrs_view(attrs@);
    let mut k: usize = 0;
    proof {
        assert(whole.skip(0) =~= whole);
    }
    while k < attrs.len()
        invariant
            0 <= k <= attrs@.len(),
            whole == attrs_view(attrs@),
            spec_attrs_get(whole, lname@) == spec_attrs_get(whole.skip(k as int), lname@),
        decreases attrs@.len() - k,
    {
        proof {
            assert(whole.skip(k as int)[0] == attrs@[k as int]@);
            assert(whole.skip(k as int).drop_first() =~= whole.skip(k + 1));
        }
        if lower_eq(attrs[k].name.as_slice(), lname) {
            return Some(&attrs[k].value);
        }
        k += 1;
    }
    proof {
        assert(whole.skip(whole.len() as int) =~= Seq::<SpecAttr>::empty());
    }
    None
}

pub fn attrs_remove(attrs: &Vec<Attr>, lname: &[u8]) -> (r: Vec<Attr>)
    ensures
        attrs_view(r@) == spec_attrs_remove(attrs_view(attrs@), lname@),
{
    let ghost whole = attrs_view(attrs@);
    let mut r: Vec<Attr> = Vec::new();
    let mut k: usize = 0;
    proof {
        assert(whole.skip(0) =~= whole);
        assert(attrs_view(r@) =~= Seq::<SpecAttr>::empty());
    }
    while k < attrs.len()
        invariant
            0 <= k <= attrs@.len(),
            whole == attrs_view(attrs@),
            spec_attrs_remove(whole, lname@) == attrs_view(r@) + spec_attrs_remove(
                whole.skip(k as int),
                lname@,
            ),
        decreases attrs@.len() - k,
    {
        let ghost prev = r@;
        proof {
            assert(whole.skip(k as int)[0] == attrs@[k as int]@);
            assert(whole.skip(k as int).drop_first() =~= whole.skip(k + 1));
        }
        if !lower_eq(attrs[k].name.as_slice(), lname) {
            let a = Attr {
                name: crate::scan::copy_bytes(attrs[k].name.as_slice()),
                value: crate::scan::copy_bytes(attrs[k].value.as_slice()),
            };
            proof {
                assert(a@ == attrs@[k as int]@);
            }
            r.push(a);
            proof {
                assert(attrs_view(r@) =~= attrs_view(prev) + seq![attrs@[k as int]@]);
            }
        }
        proof {
            assert(attrs_view(r@) + spec_attrs_remove(whole.skip(k + 1), lname@)
                =~= attrs_view(prev) + spec_attrs_remove(whole.skip(k as int), lname@));
        }
        k += 1;
    }
    proof {
        assert(whole.skip(whole.len() as int) =~= Seq::<SpecAttr>::empty());
        assert(attrs_view(r@) + spec_attrs_remove(whole.skip(whole.len() as int), lname@)
            =~= attrs_view(r@));
    }
    r
}

pub fn map_src_attrs(attrs: &Vec<Attr>, embed: bool, map: &ImageMap) -> (r: Vec<Attr>)
    ensures
        attrs_view(r@) == spec_map_src(attrs_view(attrs@), embed, map@),
{
    let ghost whole = attrs_view(attrs@);
    let mut r: Vec<Attr> = Vec::new();
    let mut k: usize = 0;
    proof {
        assert(whole.skip(0) =~= whole);
        assert(attrs_view(r@) =~= Seq::<SpecAttr>::empty());
    }
    while k < attrs.len()
        invariant
            0 <= k <= attrs@.len(),
            whole == attrs_view(attrs@),
            spec_map_src(whole, embed, map@) == attrs_view(r@) + spec_map_src(
                whole.skip(k as int),
                embed,
                map@,
            ),
        decreases attrs@.len() - k,
    {
        let ghost prev = r@;
        proof {
            assert(whole.skip(k as int)[0] == attrs@[k as int]@);
            assert(whole.skip(k as int).drop_first() =~= whole.skip(k + 1));
        }
        let name = crate::scan::copy_bytes(attrs[k].name.as_slice());
        let pat = pat_src();
        let mut a = Attr {
            name,
            value: crate::scan::copy_bytes(attrs[k].value.as_slice()),
        };
        if embed && lower_eq(a.name.as_slice(), pat.as_slice()) {
            match map.get(a.value.as_slice()) {
                Some(p) => {
                    a.value = crate::scan::copy_bytes(p.as_slice());
                },
                None => {},
            }
        }
        proof {
            assert(a@ == spec_src_attr(attrs@[k as int]@, embed, map@));
        }
        r.push(a);
        proof {
            assert(attrs_view(r@) =~= attrs_view(prev) + seq![a@]);
            assert(attrs_view(r@) + spec_map_src(whole.skip(k + 1), embed, map@)
                =~= attrs_view(prev) + spec_map_src(whole.skip(k as int), embed, map@));
        }
        k += 1;
    }
    proof {
        assert(whole.skip(whole.len() as int) =~= Seq::<SpecAttr>::empty());
        assert(attrs_view(r@) + spec_map_src(whole.skip(whole.len() as int), embed, map@)
            =~= attrs_view(r@));
    }
    r
}

// ---------------------------------------------------------------------------
// Serializing an attribute list back into tag text.
// ---------------------------------------------------------------------------

/// The entity that a literal double quote becomes inside a rendered
/// attribute value.
pub open spec fn quot_entity() -> Seq<u8> {
    seq![38u8, 113u8, 117u8, 111u8, 116u8, 59u8]
}

/// An attribute value with every double quote escaped, so that the rendered
/// tag stays well-formed.
pub open spec fn spec_escape_value(v: Seq<u8>) -> Seq<u8>
    decreases v.len(),
{
    if v.len() == 0 {
        seq![]
    } else {
        (if v[0] == 34 {
            quot_entity()
        } else {
            seq![v[0]]
        }) + spec_escape_value(v.drop_first())
    }
}

/// One attribute rendered as ` name="value"`.
pub open spec fn spec_render_attr(a: SpecAttr) -> Seq<u8> {
    seq![32u8] + a.name + seq![61u8, 34u8] + spec_escape_value(a.value) + seq![34u8]
}

/// A whole attribute list rendered in order.
pub open spec fn spec_render_attrs(attrs: Seq<SpecAttr>) -> Seq<u8>
    decreases attrs.len(),
{
    if attrs.len() == 0 {
        seq![]
    } else {
        spec_render_attr(attrs[0]) + spec_render_attrs(attrs.drop_first())
    }
}

fn push_escaped(out: &mut Vec<u8>, v: &[u8])
    ensures
        final(out)@ == old(out)@ + spec_escape_value(v@),
{
    let mut k: usize = 0;
    proof {
        assert(v@.skip(0) =~= v@);
    }
    while k < v.len()
        invariant
            0 <= k <= v@.len(),
            old(out)@ + spec_escape_value(v@) == out@ + spec_escape_value(v@.skip(k as int)),
        decreases v@.len() - k,
    {
        let ghost prev = out@;
        proof {
            assert(v@.skip(k as int)[0] == v@[k as int]);
            assert(v@.skip(k as int).drop_first() =~= v@.skip(k + 1));
        }
        if v[k] == 34 {
            let q: Vec<u8> = vec![38u8, 113u8, 117u8, 111u8, 116u8, 59u8];
            proof {
                assert(q@ =~= quot_entity());
            }
            push_bytes(out, q.as_slice());
        } else {
            out.push(v[k]);
            proof {
                assert(out@ =~= prev + seq![v@[k as int]]);
            }
        }
        proof {
            assert(out@ + spec_escape_value(v@.skip(k + 1)) =~= prev + spec_escape_value(
                v@.skip(k as int),
            ));
        }
        k += 1;
    }
    proof {
        assert(spec_escape_value(v@.skip(v@.len() as int)) =~= Seq::<u8>::empty());
        assert(out@ + spec_escape_value(v@.skip(v@.len() as int)) =~= out@);
    }
}

fn push_attr(out: &mut Vec<u8>, a: &Attr)
    ensures
        final(out)@ == old(out)@ + spec_render_attr(a@),
{
    out.push(32);
    push_bytes(out, a.name.as_slice());
    out.push(61);
    out.push(34);
    push_escaped(out, a.value.as_slice());
    out.push(34);
    proof {
        assert(out@ =~= old(out)@ + spec_render_attr(a@));
    }
}

fn push_attrs(out: &mut Vec<u8>, attrs: &Vec<Attr>)
    ensures
        final(out)@ == old(out)@ + spec_render_attrs(attrs_view(attrs@)),
{
    let ghost whole = attrs_view(attrs@);
    let mut k: usize = 0;
    proof {
        assert(whole.skip(0) =~= whole);
    }
    while k < attrs.len()
        invariant
            0 <= k <= attrs@.len(),
            whole == attrs_view(attrs@),
            old(out)@ + spec_render_attrs(whole) == out@ + spec_render_attrs(
                whole.skip(k as int),
            ),
        decreases attrs@.len() - k,
    {
        let ghost prev = out@;
        proof {
            assert(whole.skip(k as int)[0] == attrs@[k as int]@);
            assert(whole.skip(k as int).drop_first() =~= whole.skip(k + 1));
        }
        push_attr(out, &attrs[k]);
        proof {
            assert(out@ + spec_render_attrs(whole.skip(k + 1)) =~= prev + spec_render_attrs(
                whole.skip(k as int),
            ));
        }
        k += 1;
    }
    proof {
        assert(spec_render_attrs(whole.skip(whole.len() as int)) =~= Seq::<u8>::empty());
        assert(out@ + spec_render_attrs(whole.skip(whole.len() as int)) =~= out@);
    }
}

// ---------------------------------------------------------------------------
// The names and fixed fragments the rewrite rules go by.
// ---------------------------------------------------------------------------

/// Tag name `p`.
pub open spec fn n_p() -> Seq<u8> {
    seq![112u8]
}

/// Tag name `br`.
pub open spec fn n_br() -> Seq<u8> {
    seq![98u8, 114u8]
}

/// Tag name `img`.
pub open spec fn n_img() -> Seq<u8> {
    seq![105u8, 109u8, 103u8]
}

/// Attribute name `src`.
pub open spec fn n_src() -> Seq<u8> {
    seq![115u8, 114u8, 99u8]
}

/// The wrapper-marking attribute `data-media-type`.
pub open spec fn a_media_type() -> Seq<u8> {
    seq![100u8, 97u8, 116u8, 97u8, 45u8, 109u8, 101u8, 100u8, 105u8, 97u8, 45u8, 116u8, 121u8, 112u8, 101u8]
}

/// The wrapper-marking value `image`.
pub open spec fn v_image() -> Seq<u8> {
    seq![105u8, 109u8, 97u8, 103u8, 101u8]
}

/// The platform tracking attribute `data-p-id`.
pub open spec fn a_p_id() -> Seq<u8> {
    seq![100u8, 97u8, 116u8, 97u8, 45u8, 112u8, 45u8, 105u8, 100u8]
}

/// The platform sizing attribute `data-original-width`.
pub open spec fn a_orig_w() -> Seq<u8> {
    seq![100u8, 97u8, 116u8, 97u8, 45u8, 111u8, 114u8, 105u8, 103u8, 105u8, 110u8, 97u8, 108u8, 45u8, 119u8, 105u8, 100u8, 116u8, 104u8]
}

/// The platform sizing attribute `data-original-height`.
pub open spec fn a_orig_h() -> Seq<u8> {
    seq![100u8, 97u8, 116u8, 97u8, 45u8, 111u8, 114u8, 105u8, 103u8, 105u8, 110u8, 97u8, 108u8, 45u8, 104u8, 101u8, 105u8, 103u8, 104u8, 116u8]
}

/// The explicit self-closing form every line break becomes.
pub open spec fn br_replacement() -> Seq<u8> {
    seq![60u8, 98u8, 114u8, 32u8, 47u8, 62u8]
}

/// The opening of a rebuilt image tag.
pub open spec fn img_open() -> Seq<u8> {
    seq![60u8, 105u8, 109u8, 103u8]
}

/// The forced self-closing tail of a rebuilt tag.
pub open spec fn close_self() -> Seq<u8> {
    seq![32u8, 47u8, 62u8]
}

fn pat_src() -> (r: Vec<u8>)
    ensures
        r@ == n_src(),
{
    let v: Vec<u8> = vec![115u8, 114u8, 99u8];
    proof {
        assert(v@ =~= n_src());
    }
    v
}

fn pat_p() -> (r: Vec<u8>)
    ensures
        r@ == n_p(),
{
    let v: Vec<u8> = vec![112u8];
    proof {
        assert(v@ =~= n_p());
    }
    v
}

fn pat_br() -> (r: Vec<u8>)
    ensures
        r@ == n_br(),
{
    let v: Vec<u8> = vec![98u8, 114u8];
    proof {
        assert(v@ =~= n_br());
    }
    v
}

fn pat_img() -> (r: Vec<u8>)
    ensures
        r@ == n_img(),
{
    let v: Vec<u8> = vec![105u8, 109u8, 103u8];
    proof {
        assert(v@ =~= n_img());
    }
    v
}

fn pat_media_type() -> (r: Vec<u8>)
    ensures
        r@ == a_media_type(),
{
    let v: Vec<u8> = vec![100u8, 97u8, 116u8, 97u8, 45u8, 109u8, 101u8, 100u8, 105u8, 97u8, 45u8, 116u8, 121u8, 112u8, 101u8];
    proof {
        assert(v@ =~= a_media_type());
    }
    v
}

fn pat_image() -> (r: Vec<u8>)
    ensures
        r@ == v_image(),
{
    let v: Vec<u8> = vec![105u8, 109u8, 97u8, 103u8, 101u8];
    proof {
        assert(v@ =~= v_image());
    }
    v
}

fn pat_p_id() -> (r: Vec<u8>)
    ensures
        r@ == a_p_id(),
{
    let v: Vec<u8> = vec![100u8, 97u8, 116u8, 97u8, 45u8, 112u8, 45u8, 105u8, 100u8];
    proof {
        assert(v@ =~= a_p_id());
    }
    v
}

fn pat_orig_w() -> (r: Vec<u8>)
    ensures
        r@ == a_orig_w(),
{
    let v: Vec<u8> = vec![100u8, 97u8, 116u8, 97u8, 45u8, 111u8, 114u8, 105u8, 103u8, 105u8, 110u8, 97u8, 108u8, 45u8, 119u8, 105u8, 100u8, 116u8, 104u8];
    proof {
        assert(v@ =~= a_orig_w());
    }
    v
}

fn pat_orig_h() -> (r: Vec<u8>)
    ensures
        r@ == a_orig_h(),
{
    let v: Vec<u8> = vec![100u8, 97u8, 116u8, 97u8, 45u8, 111u8, 114u8, 105u8, 103u8, 105u8, 110u8, 97u8, 108u8, 45u8, 104u8, 101u8, 105u8, 103u8, 104u8, 116u8];
    proof {
        assert(v@ =~= a_orig_h());
    }
    v
}


// ---------------------------------------------------------------------------
// One token of the tolerant streaming pass.
// ---------------------------------------------------------------------------

/// One step of the streaming rewrite at position `i`: how many bytes of the
/// input it consumes, what it emits, and the paragraph-suppression stack it
/// leaves. The stack holds one entry per open `p` element, `true` when that
/// element is a removed image wrapper whose end tag must be dropped too.
///
/// A tag that a rule touches is re-serialized in a normal form — every
/// attribute double-quoted, quotes inside values escaped, a valueless
/// attribute given the empty value — a deliberate repair so that the strict
/// pass downstream always receives well-formed attribute syntax. Names and
/// values are preserved; a tag no rule touches passes through byte for byte.
pub open spec fn spec_rw_step(
    s: Seq<u8>,
    i: int,
    st: Seq<bool>,
    embed: bool,
    m: Seq<(Seq<u8>, Seq<u8>)>,
) -> (int, Seq<u8>, Seq<bool>) {
    let len = s.len() as int;
    if i < 0 || i >= len {
        (1, Seq::<u8>::empty(), st)
    } else if s[i] != 60 {
        (1, seq![s[i]], st)
    } else if i + 4 <= len && s[i + 1] == 33 && s[i + 2] == 45 && s[i + 3] == 45 {
        let e = crate::scan::spec_find_arrow(s, i + 4);
        if e == len {
            (len - i, s.subrange(i, len), st)
        } else {
            (e + 3 - i, s.subrange(i, e + 3), st)
        }
    } else if i + 1 < len && (s[i + 1] == 33 || s[i + 1] == 63) {
        let g = crate::scan::spec_find_from(s, i + 1, 62);
        if g == len {
            (len - i, s.subrange(i, len), st)
        } else {
            (g + 1 - i, s.subrange(i, g + 1), st)
        }
    } else if i + 2 < len && s[i + 1] == 47 && is_alpha(s[i + 2]) {
        let g = crate::scan::spec_find_from(s, i + 2, 62);
        if g == len {
            (len - i, s.subrange(i, len), st)
        } else {
            let ne = spec_name_end(s, i + 2, g);
            let name = lower_bytes(s.subrange(i + 2, ne));
            if name == n_p() && st.len() > 0 {
                if st.last() {
                    (g + 1 - i, Seq::<u8>::empty(), st.drop_last())
                } else {
                    (g + 1 - i, s.subrange(i, g + 1), st.drop_last())
                }
            } else {
                (g + 1 - i, s.subrange(i, g + 1), st)
            }
        }
    } else if i + 1 < len && is_alpha(s[i + 1]) {
        let g = crate::scan::spec_tag_end(s, i + 1, 0);
        if g == len {
            (len - i, s.subrange(i, len), st)
        } else {
            let ne = spec_name_end(s, i + 1, g);
            let name = lower_bytes(s.subrange(i + 1, ne));
            let attrs = spec_parse_attrs(s, ne, g);
            let selfc = s[g - 1] == 47;
            let c = g + 1 - i;
            if name == n_br() {
                (c, br_replacement(), st)
            } else if name == n_p() && spec_attrs_get(attrs, a_media_type()) == Some(v_image()) {
                (c, Seq::<u8>::empty(), if selfc { st } else { st.push(true) })
            } else if name == n_img() {
                let kept = spec_attrs_remove(
                    spec_attrs_remove(spec_attrs_remove(attrs, a_p_id()), a_orig_w()),
                    a_orig_h(),
                );
                let mapped = spec_map_src(kept, embed, m);
                (c, img_open() + spec_render_attrs(mapped) + close_self(), st)
            } else {
                let st2 = if name == n_p() && !selfc {
                    st.push(false)
                } else {
                    st
                };
                if spec_attrs_get(attrs, a_p_id()) is Some {
                    let kept = spec_attrs_remove(attrs, a_p_id());
                    (
                        c,
                        seq![60u8] + s.subrange(i + 1, ne) + spec_render_attrs(kept) + (if selfc {
                            close_self()
                        } else {
                            seq![62u8]
                        }),
                        st2,
                    )
                } else {
                    (c, s.subrange(i, g + 1), st2)
                }
            }
        }
    } else {
        (1, seq![60u8], st)
    }
}

pub proof fn lemma_rw_step_consumed(
    s: Seq<u8>,
    i: int,
    st: Seq<bool>,
    embed: bool,
    m: Seq<(Seq<u8>, Seq<u8>)>,
)
    requires
        0 <= i < s.len(),
    ensures
        1 <= spec_rw_step(s, i, st, embed, m).0 <= s.len() - i,
{
    let len = s.len() as int;
    if s[i] == 60 {
        if i + 4 <= len && s[i + 1] == 33 && s[i + 2] == 45 && s[i + 3] == 45 {
            crate::scan::lemma_find_arrow_bounds(s, i + 4);
        } else if i + 1 < len && (s[i + 1] == 33 || s[i + 1] == 63) {
            crate::scan::lemma_find_from_bounds(s, i + 1, 62);
        } else if i + 2 < len && s[i + 1] == 47 && is_alpha(s[i + 2]) {
            crate::scan::lemma_find_from_bounds(s, i + 2, 62);
        } else if i + 1 < len && is_alpha(s[i + 1]) {
            crate::scan::lemma_tag_end_bounds(s, i + 1, 0);
        }
    }
}

/// The whole streaming rewrite from position `i` with suppression stack `st`.
pub open spec fn spec_rw_from(
    s: Seq<u8>,
    i: int,
    st: Seq<bool>,
    embed: bool,
    m: Seq<(Seq<u8>, Seq<u8>)>,
) -> Seq<u8>
    decreases s.len() - i,
{
    if i < 0 || i >= s.len() {
        Seq::<u8>::empty()
    } else {
        let r = spec_rw_step(s, i, st, embed, m);
        let c0 = if r.0 < 1 {
            1
        } else {
            r.0
        };
        let c = if c0 > s.len() - i {
            s.len() - i
        } else {
            c0
        };
        r.1 + spec_rw_from(s, i + c, r.2, embed, m)
    }
}

/// The streaming rewrite of a whole fragment: image wrappers unwrapped,
/// tracking attributes stripped, line breaks forced to their self-closing
/// form, image tags rebuilt self-closing with their sources substituted
/// through `m` when `embed` is set.
pub open spec fn spec_rewrite(s: Seq<u8>, embed: bool, m: Seq<(Seq<u8>, Seq<u8>)>) -> Seq<u8> {
    spec_rw_from(s, 0, seq![], embed, m)
}

/// Performs one rewrite step at position `i`, appending what the step emits
/// to `out` and updating the suppression stack; returns how many input bytes
/// the step consumed.
#[verifier::rlimit(50)]
fn rw_step(
    s: &[u8],
    i: usize,
    embed: bool,
    map: &ImageMap,
    stack: &mut Vec<bool>,
    out: &mut Vec<u8>,
) -> (c: usize)
    requires
        i < s@.len(),
    ensures
        c == spec_rw_step(s@, i as int, old(stack)@, embed, map@).0,
        final(out)@ == old(out)@ + spec_rw_step(s@, i as int, old(stack)@, embed, map@).1,
        final(stack)@ == spec_rw_step(s@, i as int, old(stack)@, embed, map@).2,
        1 <= c <= s@.len() - i,
{
    proof {
        lemma_rw_step_consumed(s@, i as int, old(stack)@, embed, map@);
    }
    let len = s.len();
    let b = s[i];
    if b != 60 {
        out.push(b);
        proof {
            assert(out@ =~= old(out)@ + seq![s@[i as int]]);
        }
        return 1;
    }
    if len - i >= 4 && s[i + 1] == 33 && s[i + 2] == 45 && s[i + 3] == 45 {
        let e = crate::scan::find_arrow(s, i + 4);
        if e == len {
            push_range(out, s, i, len);
            return len - i;
        } else {
            proof {
                crate::scan::lemma_find_arrow_bounds(s@, i + 4);
            }
            push_range(out, s, i, e + 3);
            return e + 3 - i;
        }
    }
    if len - i > 1 && (s[i + 1] == 33 || s[i + 1] == 63) {
        let g = crate::scan::find_from(s, i + 1, 62);
        if g == len {
            push_range(out, s, i, len);
            return len - i;
        } else {
            push_range(out, s, i, g + 1);
            return g + 1 - i;
        }
    }
    if len - i > 2 && s[i + 1] == 47 && byte_is_alpha(s[i + 2]) {
        let g = crate::scan::find_from(s, i + 2, 62);
        if g == len {
            push_range(out, s, i, len);
            return len - i;
        }
        let ne = name_end(s, i + 2, g);
        let pp = pat_p();
        if lower_eq(&s[i + 2..ne], pp.as_slice()) && stack.len() > 0 {
            let top = stack[stack.len() - 1];
            stack.pop();
            if !top {
                push_range(out, s, i, g + 1);
            }
            return g + 1 - i;
        } else {
            push_range(out, s, i, g + 1);
            return g + 1 - i;
        }
    }
    if len - i > 1 && byte_is_alpha(s[i + 1]) {
        let g = crate::scan::tag_end(s, i + 1);
        if g == len {
            push_range(out, s, i, len);
            return len - i;
        }
        let ne = name_end(s, i + 1, g);
        let attrs = parse_attrs(s, ne, g);
        let selfc = s[g - 1] == 47;
        let c = g + 1 - i;
        let pbr = pat_br();
        if lower_eq(&s[i + 1..ne], pbr.as_slice()) {
            let rep: Vec<u8> = vec![60u8, 98, 114, 32, 47, 62];
            proof {
                assert(rep@ =~= br_replacement());
            }
            push_bytes(out, rep.as_slice());
            return c;
        }
        let pp = pat_p();
        let is_p = lower_eq(&s[i + 1..ne], pp.as_slice());
        let pmedia = pat_media_type();
        let pimage = pat_image();
        let media = attrs_get(&attrs, pmedia.as_slice());
        let is_media = match media {
            Some(v) => crate::scan::bytes_eq(v.as_slice(), pimage.as_slice()),
            None => false,
        };
        if is_p && is_media {
            if !selfc {
                stack.push(true);
            }
            return c;
        }
        let pimg = pat_img();
        if lower_eq(&s[i + 1..ne], pimg.as_slice()) {
            let ppid = pat_p_id();
            let pw = pat_orig_w();
            let ph = pat_orig_h();
            let k1 = attrs_remove(&attrs, ppid.as_slice());
            let k2 = attrs_remove(&k1, pw.as_slice());
            let k3 = attrs_remove(&k2, ph.as_slice());
            let mapped = map_src_attrs(&k3, embed, map);
            let op: Vec<u8> = vec![60u8, 105, 109, 103];
            proof {
                assert(op@ =~= img_open());
            }
            push_bytes(out, op.as_slice());
            push_attrs(out, &mapped);
            let cl: Vec<u8> = vec![32u8, 47, 62];
            proof {
                assert(cl@ =~= close_self());
            }
            push_bytes(out, cl.as_slice());
            proof {
                assert(out@ =~= old(out)@ + (img_open() + spec_render_attrs(attrs_view(mapped@))
                    + close_self()));
            }
            return c;
        }
        if is_p && !selfc {
            stack.push(false);
        }
        let ppid = pat_p_id();
        let has_pid = match attrs_get(&attrs, ppid.as_slice()) {
            Some(_) => true,
            None => false,
        };
        if has_pid {
            let kept = attrs_remove(&attrs, ppid.as_slice());
            out.push(60);
            push_range(out, s, i + 1, ne);
            push_attrs(out, &kept);
            if selfc {
                let cl: Vec<u8> = vec![32u8, 47, 62];
                proof {
                    assert(cl@ =~= close_self());
                }
                push_bytes(out, cl.as_slice());
            } else {
                out.push(62);
            }
            proof {
                assert(out@ =~= old(out)@ + (seq![60u8] + s@.subrange(i + 1, ne as int)
                    + spec_render_attrs(attrs_view(kept@)) + (if selfc {
                    close_self()
                } else {
                    seq![62u8]
                })));
            }
            return c;
        }
        push_range(out, s, i, g + 1);
        return c;
    }
    out.push(60);
    proof {
        assert(out@ =~= old(out)@ + seq![60u8]);
    }
    1
}

/// A single tolerant streaming pass over `s`: image wrappers unwrapped,
/// tracking attributes stripped, line breaks forced self-closing, image tags
/// rebuilt with their sources substituted through `map` when `embed` is set.
/// This pass never rejects its input. Tags the rules touch come out in the
/// normal attribute form (double-quoted, escaped) that the strict pass
/// requires; everything else passes through unchanged.
pub fn rewrite_html(s: &[u8], embed: bool, map: &ImageMap) -> (out: Vec<u8>)
    ensures
        out@ == spec_rewrite(s@, embed, map@),
{
    let mut out: Vec<u8> = Vec::new();
    let mut stack: Vec<bool> = Vec::new();
    let mut i: usize = 0;
    proof {
        assert(out@ + spec_rw_from(s@, 0, stack@, embed, map@) =~= spec_rewrite(s@, embed, map@));
    }
    while i < s.len()
        invariant
            0 <= i <= s@.len(),
            spec_rewrite(s@, embed, map@) == out@ + spec_rw_from(s@, i as int, stack@, embed, map@),
        decreases s@.len() - i,
    {
        let ghost pre_out = out@;
        let ghost pre_st = stack@;
        let c = rw_step(s, i, embed, map, &mut stack, &mut out);
        proof {
            let step = spec_rw_step(s@, i as int, pre_st, embed, map@);
            assert(spec_rw_from(s@, i as int, pre_st, embed, map@) == step.1 + spec_rw_from(
                s@,
                i + c,
                step.2,
                embed,
                map@,
            ));
            assert(out@ + spec_rw_from(s@, i + c, stack@, embed, map@) =~= pre_out
                + spec_rw_from(s@, i as int, pre_st, embed, map@));
        }
        i += c;
    }
    out
}

// ---------------------------------------------------------------------------
// Discovering image references.
// ---------------------------------------------------------------------------

/// View of a sequence of byte vectors as a sequence of byte strings.
pub open spec fn vecs_view(s: Seq<Vec<u8>>) -> Seq<Seq<u8>> {
    Seq::new(s.len(), |k: int| s[k]@)
}

/// The image source referenced at position `i`: the `src` value of the image
/// start tag beginning there, if any.
pub open spec fn spec_url_at(s: Seq<u8>, i: int) -> Option<Seq<u8>> {
    let len = s.len() as int;
    if i < 0 || i >= len {
        None
    } else if s[i] != 60 {
        None
    } else if i + 4 <= len && s[i + 1] == 33 && s[i + 2] == 45 && s[i + 3] == 45 {
        None
    } else if i + 1 < len && (s[i + 1] == 33 || s[i + 1] == 63) {
        None
    } else if i + 2 < len && s[i + 1] == 47 && is_alpha(s[i + 2]) {
        None
    } else if i + 1 < len && is_alpha(s[i + 1]) {
        let g = crate::scan::spec_tag_end(s, i + 1, 0);
        if g == len {
            None
        } else {
            let ne = spec_name_end(s, i + 1, g);
            let name = lower_bytes(s.subrange(i + 1, ne));
            if name == n_img() {
                spec_attrs_get(spec_parse_attrs(s, ne, g), n_src())
            } else {
                None
            }
        }
    } else {
        None
    }
}

/// Every image source referenced from position `i` on, in document order.
pub open spec fn spec_collect_from(s: Seq<u8>, i: int) -> Seq<Seq<u8>>
    decreases s.len() - i,
{
    if i < 0 || i >= s.len() {
        seq![]
    } else {
        let r = spec_rw_step(s, i, seq![], false, seq![]);
        let c0 = if r.0 < 1 {
            1
        } else {
            r.0
        };
        let c = if c0 > s.len() - i {
            s.len() - i
        } else {
            c0
        };
        (match spec_url_at(s, i) {
            Some(u) => seq![u],
            None => seq![],
        }) + spec_collect_from(s, i + c)
    }
}

/// Every image source referenced in the fragment, in document order, one
/// entry per occurrence (duplicates are kept).
pub open spec fn spec_collect(s: Seq<u8>) -> Seq<Seq<u8>> {
    spec_collect_from(s, 0)
}

/// How many bytes a step consumes depends on the input alone, not on the
/// suppression stack, the embedding switch or the image map.
pub proof fn lemma_rw_step_consumed_indep(
    s: Seq<u8>,
    i: int,
    st1: Seq<bool>,
    st2: Seq<bool>,
    e1: bool,
    e2: bool,
    m1: Seq<(Seq<u8>, Seq<u8>)>,
    m2: Seq<(Seq<u8>, Seq<u8>)>,
)
    ensures
        spec_rw_step(s, i, st1, e1, m1).0 == spec_rw_step(s, i, st2, e2, m2).0,
{
}

/// Collects the `src` attribute of every image element, in document order,
/// without altering the fragment. Duplicate URLs are kept: each occurrence
/// is resolved independently.
pub fn collect_image_urls(html: &[u8]) -> (r: Vec<Vec<u8>>)
    ensures
        vecs_view(r@) == spec_collect(html@),
{
    let len = html.len();
    let mut urls: Vec<Vec<u8>> = Vec::new();
    let mut dummy_stack: Vec<bool> = Vec::new();
    let mut scratch: Vec<u8> = Vec::new();
    let em = ImageMap::new();
    let mut i: usize = 0;
    proof {
        assert(vecs_view(urls@) + spec_collect_from(html@, 0) =~= spec_collect(html@));
    }
    while i < len
        invariant
            0 <= i <= len == html@.len(),
            em@ == Seq::<(Seq<u8>, Seq<u8>)>::empty(),
            spec_collect(html@) == vecs_view(urls@) + spec_collect_from(html@, i as int),
        decreases len - i,
    {
        let ghost prev = urls@;
        if html[i] == 60 && !(len - i >= 4 && html[i + 1] == 33 && html[i + 2] == 45 && html[i + 3]
            == 45) && !(len - i > 1 && (html[i + 1] == 33 || html[i + 1] == 63)) && !(len - i > 2
            && html[i + 1] == 47 && byte_is_alpha(html[i + 2])) && len - i > 1 && byte_is_alpha(
            html[i + 1],
        ) {
            let g = crate::scan::tag_end(html, i + 1);
            if g < len {
                let ne = name_end(html, i + 1, g);
                let pimg = pat_img();
                if lower_eq(&html[i + 1..ne], pimg.as_slice()) {
                    let attrs = parse_attrs(html, ne, g);
                    let psrc = pat_src();
                    match attrs_get(&attrs, psrc.as_slice()) {
                        Some(v) => {
                            urls.push(crate::scan::copy_bytes(v.as_slice()));
                            proof {
                                assert(vecs_view(urls@) =~= vecs_view(prev) + seq![
                                    spec_url_at(html@, i as int).unwrap(),
                                ]);
                            }
                        },
                        None => {},
                    }
                }
            }
        }
        let ghost pre_st = dummy_stack@;
        let c = rw_step(html, i, false, &em, &mut dummy_stack, &mut scratch);
        proof {
            lemma_rw_step_consumed_indep(html@, i as int, pre_st, seq![], false, false, em@, seq![]);
            assert(spec_collect_from(html@, i as int) == (match spec_url_at(html@, i as int) {
                Some(u) => seq![u],
                None => seq![],
            }) + spec_collect_from(html@, i + c));
            assert(vecs_view(urls@) + spec_collect_from(html@, i + c) =~= vecs_view(prev)
                + spec_collect_from(html@, i as int));
        }
        i += c;
    }
    urls
}

// ---------------------------------------------------------------------------
// With embedding disabled the image map is never consulted.
// ---------------------------------------------------------------------------

proof fn lemma_map_src_disabled(attrs: Seq<SpecAttr>, m: Seq<(Seq<u8>, Seq<u8>)>)
    ensures
        spec_map_src(attrs, false, m) == attrs,
    decreases attrs.len(),
{
    if attrs.len() > 0 {
        lemma_map_src_disabled(attrs.drop_first(), m);
        assert(spec_map_src(attrs, false, m) =~= attrs);
    }
}

proof fn lemma_rw_step_disabled(
    s: Seq<u8>,
    i: int,
    st: Seq<bool>,
    m1: Seq<(Seq<u8>, Seq<u8>)>,
    m2: Seq<(Seq<u8>, Seq<u8>)>,
)
    ensures
        spec_rw_step(s, i, st, false, m1) == spec_rw_step(s, i, st, false, m2),
{
    let len = s.len() as int;
    if 0 <= i < len && s[i] == 60 && !(i + 4 <= len && s[i + 1] == 33 && s[i + 2] == 45 && s[i + 3]
        == 45) && !(i + 1 < len && (s[i + 1] == 33 || s[i + 1] == 63)) && !(i + 2 < len && s[i + 1]
        == 47 && is_alpha(s[i + 2])) && i + 1 < len && is_alpha(s[i + 1]) {
        let g = crate::scan::spec_tag_end(s, i + 1, 0);
        if g != len {
            let ne = spec_name_end(s, i + 1, g);
            let attrs = spec_parse_attrs(s, ne, g);
            let kept = spec_attrs_remove(
                spec_attrs_remove(spec_attrs_remove(attrs, a_p_id()), a_orig_w()),
                a_orig_h(),
            );
            lemma_map_src_disabled(kept, m1);
            lemma_map_src_disabled(kept, m2);
        }
    }
}

proof fn lemma_rw_from_disabled(
    s: Seq<u8>,
    i: int,
    st: Seq<bool>,
    m1: Seq<(Seq<u8>, Seq<u8>)>,
    m2: Seq<(Seq<u8>, Seq<u8>)>,
)
    ensures
        spec_rw_from(s, i, st, false, m1) == spec_rw_from(s, i, st, false, m2),
    decreases s.len() - i,
{
    if 0 <= i < s.len() {
        lemma_rw_step_disabled(s, i, st, m1, m2);
        let r = spec_rw_step(s, i, st, false, m1);
        let c0 = if r.0 < 1 {
            1
        } else {
            r.0
        };
        let c = if c0 > s.len() - i {
            s.len() - i
        } else {
            c0
        };
        lemma_rw_from_disabled(s, i + c, r.2, m1, m2);
    }
}

/// With image embedding disabled the rewrite never reads the image map:
/// whatever map is supplied, the output is the same, and only the structural
/// cleanup rules apply.
pub proof fn lemma_rewrite_ignores_map_when_disabled(
    s: Seq<u8>,
    m1: Seq<(Seq<u8>, Seq<u8>)>,
    m2: Seq<(Seq<u8>, Seq<u8>)>,
)
    ensures
        spec_rewrite(s, false, m1) == spec_rewrite(s, false, m2),
{
    lemma_rw_from_disabled(s, 0, seq![], m1, m2);
}

// ---------------------------------------------------------------------------
// One emission per line-break element.
// ---------------------------------------------------------------------------

/// The chunks the rewrite emits, one per consumed token, in order; their
/// concatenation is the rewritten fragment.
pub open spec fn spec_rw_emits(
    s: Seq<u8>,
    i: int,
    st: Seq<bool>,
    embed: bool,
    m: Seq<(Seq<u8>, Seq<u8>)>,
) -> Seq<Seq<u8>>
    decreases s.len() - i,
{
    if i < 0 || i >= s.len() {
        seq![]
    } else {
        let r = spec_rw_step(s, i, st, embed, m);
        let c0 = if r.0 < 1 {
            1
        } else {
            r.0
        };
        let c = if c0 > s.len() - i {
            s.len() - i
        } else {
            c0
        };
        seq![r.1] + spec_rw_emits(s, i + c, r.2, embed, m)
    }
}

/// The rewritten fragment is exactly the concatenation of what the steps
/// emit.
pub proof fn lemma_rw_from_is_emits_flattened(
    s: Seq<u8>,
    i: int,
    st: Seq<bool>,
    embed: bool,
    m: Seq<(Seq<u8>, Seq<u8>)>,
)
    ensures
        spec_rw_from(s, i, st, embed, m) == spec_rw_emits(s, i, st, embed, m).flatten(),
    decreases s.len() - i,
{
    if i < 0 || i >= s.len() {
        assert(spec_rw_emits(s, i, st, embed, m).flatten() =~= Seq::<u8>::empty());
    } else {
        let r = spec_rw_step(s, i, st, embed, m);
        let c0 = if r.0 < 1 {
            1
        } else {
            r.0
        };
        let c = if c0 > s.len() - i {
            s.len() - i
        } else {
            c0
        };
        lemma_rw_from_is_emits_flattened(s, i + c, r.2, embed, m);
        let es = spec_rw_emits(s, i, st, embed, m);
        assert(es.first() == r.1);
        assert(es.drop_first() =~= spec_rw_emits(s, i + c, r.2, embed, m));
    }
}

/// Whether position `i` starts a line-break element: a start tag, in any
/// closing style, whose name is `br` in any letter case.
pub open spec fn spec_is_br_token(s: Seq<u8>, i: int) -> bool {
    let len = s.len() as int;
    0 <= i < len && s[i] == 60 && !(i + 4 <= len && s[i + 1] == 33 && s[i + 2] == 45 && s[i + 3]
        == 45) && !(i + 1 < len && (s[i + 1] == 33 || s[i + 1] == 63)) && !(i + 2 < len && s[i + 1]
        == 47 && is_alpha(s[i + 2])) && i + 1 < len && is_alpha(s[i + 1]) && {
        let g = crate::scan::spec_tag_end(s, i + 1, 0);
        g < len && lower_bytes(s.subrange(i + 1, spec_name_end(s, i + 1, g))) == n_br()
    }
}

/// How many line-break elements the token scan finds from position `i` on.
pub open spec fn spec_br_count(s: Seq<u8>, i: int) -> int
    decreases s.len() - i,
{
    if i < 0 || i >= s.len() {
        0int
    } else {
        let r = spec_rw_step(s, i, seq![], false, seq![]);
        let c0 = if r.0 < 1 {
            1
        } else {
            r.0
        };
        let c = if c0 > s.len() - i {
            s.len() - i
        } else {
            c0
        };
        (if spec_is_br_token(s, i) {
            1int
        } else {
            0int
        }) + spec_br_count(s, i + c)
    }
}

/// How many chunks equal `t`.
pub open spec fn spec_count_matches(chunks: Seq<Seq<u8>>, t: Seq<u8>) -> int
    decreases chunks.len(),
{
    if chunks.len() == 0 {
        0int
    } else {
        (if chunks.first() == t {
            1int
        } else {
            0int
        }) + spec_count_matches(chunks.drop_first(), t)
    }
}

/// A step emits the self-closing line-break form exactly when the token it
/// consumed is a line-break element.
#[verifier::rlimit(80)]
proof fn lemma_br_chunk(s: Seq<u8>, i: int, st: Seq<bool>, embed: bool, m: Seq<(Seq<u8>, Seq<u8>)>)
    requires
        0 <= i < s.len(),
    ensures
        (spec_rw_step(s, i, st, embed, m).1 == br_replacement()) <==> spec_is_br_token(s, i),
{
    let len = s.len() as int;
    let step = spec_rw_step(s, i, st, embed, m);
    let brr = br_replacement();
    assert(brr.len() == 6 && brr[0] == 60 && brr[1] == 98 && brr[2] == 114 && brr[3] == 32
        && brr[4] == 47 && brr[5] == 62);
    let is_comment = i + 4 <= len && s[i + 1] == 33 && s[i + 2] == 45 && s[i + 3] == 45;
    let is_decl = i + 1 < len && (s[i + 1] == 33 || s[i + 1] == 63);
    let is_end = i + 2 < len && s[i + 1] == 47 && is_alpha(s[i + 2]);
    let is_start = i + 1 < len && is_alpha(s[i + 1]);
    if step.1 == brr {
        if s[i] != 60 {
            assert(step.1.len() == 1);
            assert(false);
        } else if is_comment {
            crate::scan::lemma_find_arrow_bounds(s, i + 4);
            assert(step.1[1] == s[i + 1]);
            assert(false);
        } else if is_decl {
            crate::scan::lemma_find_from_bounds(s, i + 1, 62);
            assert(step.1[1] == s[i + 1]);
            assert(false);
        } else if is_end {
            crate::scan::lemma_find_from_bounds(s, i + 2, 62);
            let g = crate::scan::spec_find_from(s, i + 2, 62);
            if g == len {
                assert(step.1[1] == s[i + 1]);
            } else {
                let ne = spec_name_end(s, i + 2, g);
                let name = lower_bytes(s.subrange(i + 2, ne));
                if name == n_p() && st.len() > 0 && st.last() {
                    assert(step.1.len() == 0);
                } else {
                    assert(step.1[1] == s[i + 1]);
                }
            }
            assert(false);
        } else if is_start {
            crate::scan::lemma_tag_end_bounds(s, i + 1, 0);
            let g = crate::scan::spec_tag_end(s, i + 1, 0);
            if g == len {
                assert(step.1 =~= s.subrange(i, len));
                assert(len - i == 6);
                assert(s[i + 1] == 98 && s[i + 2] == 114 && s[i + 3] == 32 && s[i + 4] == 47
                    && s[i + 5] == 62);
                assert(crate::scan::spec_tag_end(s, i + 1, 0) == crate::scan::spec_tag_end(
                    s,
                    i + 2,
                    0,
                ));
                assert(crate::scan::spec_tag_end(s, i + 2, 0) == crate::scan::spec_tag_end(
                    s,
                    i + 3,
                    0,
                ));
                assert(crate::scan::spec_tag_end(s, i + 3, 0) == crate::scan::spec_tag_end(
                    s,
                    i + 4,
                    0,
                ));
                assert(crate::scan::spec_tag_end(s, i + 4, 0) == crate::scan::spec_tag_end(
                    s,
                    i + 5,
                    0,
                ));
                assert(crate::scan::spec_tag_end(s, i + 5, 0) == i + 5);
                assert(false);
            } else {
                let ne = spec_name_end(s, i + 1, g);
                let name = lower_bytes(s.subrange(i + 1, ne));
                let attrs = spec_parse_attrs(s, ne, g);
                let selfc = s[g - 1] == 47;
                lemma_name_end_bounds(s, i + 1, g);
                if name == n_br() {
                    assert(spec_is_br_token(s, i));
                } else if name == n_p() && spec_attrs_get(attrs, a_media_type()) == Some(
                    v_image(),
                ) {
                    assert(step.1.len() == 0);
                    assert(false);
                } else if name == n_img() {
                    assert(step.1[1] == img_open()[1]);
                    assert(img_open()[1] == 105);
                    assert(false);
                } else if spec_attrs_get(attrs, a_p_id()) is Some {
                    let kept = spec_attrs_remove(attrs, a_p_id());
                    let name_orig = s.subrange(i + 1, ne);
                    assert(spec_name_end(s, i + 1, g) == spec_name_end(s, i + 2, g));
                    lemma_name_end_bounds(s, i + 2, g);
                    assert(ne >= i + 2);
                    assert(step.1[1] == name_orig[0]);
                    assert(s[i + 1] == 98);
                    if ne == i + 2 {
                        let rest = spec_render_attrs(kept) + (if selfc {
                            close_self()
                        } else {
                            seq![62u8]
                        });
                        assert(step.1[2] == rest[0]);
                        if kept.len() == 0 {
                            assert(rest[0] == (if selfc {
                                close_self()
                            } else {
                                seq![62u8]
                            })[0]);
                        } else {
                            assert(spec_render_attrs(kept).first() == spec_render_attrs(
                                kept,
                            ).first());
                            assert(rest[0] == spec_render_attr(kept.first())[0]);
                            assert(spec_render_attr(kept.first())[0] == 32);
                        }
                        assert(false);
                    } else if ne == i + 3 {
                        assert(step.1[2] == name_orig[1]);
                        assert(s[i + 2] == 114);
                        assert(name =~= n_br()) by {
                            assert(name.len() == 2);
                            assert(name[0] == lower_byte(98));
                            assert(name[1] == lower_byte(114));
                        }
                        assert(false);
                    } else {
                        assert(ne >= i + 4);
                        assert(step.1[3] == name_orig[2]);
                        assert(s[i + 3] == 32);
                        assert(!(is_space(s[i + 3]) || s[i + 3] == 61 || s[i + 3] == 47));
                        assert(false);
                    }
                } else {
                    assert(step.1 =~= s.subrange(i, g + 1));
                    assert(g == i + 5);
                    assert(s[i + 1] == 98 && s[i + 2] == 114 && s[i + 3] == 32);
                    assert(spec_name_end(s, i + 1, g) == spec_name_end(s, i + 2, g));
                    assert(spec_name_end(s, i + 2, g) == spec_name_end(s, i + 3, g));
                    assert(spec_name_end(s, i + 3, g) == i + 3);
                    assert(ne == i + 3);
                    assert(name =~= n_br()) by {
                        assert(name.len() == 2);
                        assert(name[0] == lower_byte(98));
                        assert(name[1] == lower_byte(114));
                    }
                    assert(false);
                }
            }
        } else {
            assert(step.1.len() == 1);
            assert(false);
        }
    }
    if spec_is_br_token(s, i) {
        assert(s[i] == 60 && !is_comment && !is_decl && !is_end && is_start);
        let g = crate::scan::spec_tag_end(s, i + 1, 0);
        assert(g < len);
        assert(step.1 == brr);
    }
}

proof fn lemma_br_emissions(
    s: Seq<u8>,
    i: int,
    st: Seq<bool>,
    embed: bool,
    m: Seq<(Seq<u8>, Seq<u8>)>,
)
    ensures
        spec_count_matches(spec_rw_emits(s, i, st, embed, m), br_replacement()) == spec_br_count(
            s,
            i,
        ),
    decreases s.len() - i,
{
    if i < 0 || i >= s.len() {
    } else {
        let r = spec_rw_step(s, i, st, embed, m);
        let c0 = if r.0 < 1 {
            1
        } else {
            r.0
        };
        let c = if c0 > s.len() - i {
            s.len() - i
        } else {
            c0
        };
        lemma_rw_step_consumed_indep(s, i, st, seq![], embed, false, m, seq![]);
        lemma_br_chunk(s, i, st, embed, m);
        lemma_br_emissions(s, i + c, r.2, embed, m);
        let es = spec_rw_emits(s, i, st, embed, m);
        assert(es.first() == r.1);
        assert(es.drop_first() =~= spec_rw_emits(s, i + c, r.2, embed, m));
    }
}

/// However a fragment closes its line breaks, the rewrite emits the
/// explicit self-closing form exactly once for each line-break element the
/// token scan finds, and nothing else it emits equals that form; the
/// rewritten fragment is the concatenation of those emissions in order.
pub proof fn lemma_line_break_normalization(s: Seq<u8>, embed: bool, m: Seq<(Seq<u8>, Seq<u8>)>)
    ensures
        spec_rewrite(s, embed, m) == spec_rw_emits(s, 0, seq![], embed, m).flatten(),
        spec_count_matches(spec_rw_emits(s, 0, seq![], embed, m), br_replacement())
            == spec_br_count(s, 0),
{
    lemma_rw_from_is_emits_flattened(s, 0, seq![], embed, m);
    lemma_br_emissions(s, 0, seq![], embed, m);
}

} // verus!
