use vstd::prelude::*;
use crate::scan::bytes_eq;

verus! {

/// The value that `key` maps to in an association list, or `None`.
/// Keys are unique in a well-formed list, so the first match decides.
pub open spec fn spec_map_get(m: Seq<(Seq<u8>, Seq<u8>)>, key: Seq<u8>) -> Option<Seq<u8>>
    decreases m.len(),
{
    if m.len() == 0 {
        None
    } else if m[0].0 == key {
        Some(m[0].1)
    } else {
        spec_map_get(m.drop_first(), key)
    }
}

/// The association list after binding `key` to `val`: an existing binding of
/// `key` is replaced in place, a new key is appended at the end.
pub open spec fn spec_map_set(m: Seq<(Seq<u8>, Seq<u8>)>, key: Seq<u8>, val: Seq<u8>) -> Seq<
    (Seq<u8>, Seq<u8>),
>
    decreases m.len(),
{
    if m.len() == 0 {
        seq![(key, val)]
    } else if m[0].0 == key {
        seq![(key, val)] + m.drop_first()
    } else {
        seq![m[0]] + spec_map_set(m.drop_first(), key, val)
    }
}

pub proof fn lemma_map_set_get(m: Seq<(Seq<u8>, Seq<u8>)>, key: Seq<u8>, val: Seq<u8>, k2: Seq<u8>)
    ensures
        spec_map_get(spec_map_set(m, key, val), k2) == if k2 == key {
            Some(val)
        } else {
            spec_map_get(m, k2)
        },
    decreases m.len(),
{
    if m.len() == 0 {
        let r = spec_map_set(m, key, val);
        assert(r[0] == (key, val));
        if k2 != key {
            assert(r.drop_first() =~= Seq::<(Seq<u8>, Seq<u8>)>::empty());
            assert(spec_map_get(r.drop_first(), k2) is None);
        }
        assert(spec_map_get(r, k2) == if k2 == key { Some(val) } else { spec_map_get(m, k2) });
    } else if m[0].0 == key {
        let r = spec_map_set(m, key, val);
        assert(r[0] == (key, val));
        assert(r.drop_first() =~= m.drop_first());
        assert(spec_map_get(r, k2) == if k2 == key { Some(val) } else { spec_map_get(m, k2) });
    } else {
        lemma_map_set_get(m.drop_first(), key, val, k2);
        let r = spec_map_set(m, key, val);
        assert(r[0] == m[0]);
        assert(r.drop_first() =~= spec_map_set(m.drop_first(), key, val));
        assert(spec_map_get(r, k2) == if k2 == key { Some(val) } else { spec_map_get(m, k2) });
    }
}

/// Mapping from an original image URL to the package-relative path that
/// replaces it: either the unique path of a successfully downloaded image or
/// the shared placeholder path. Scoped to one chapter.
pub struct ImageMap {
    entries: Vec<(Vec<u8>, Vec<u8>)>,
}

impl View for ImageMap {
    type V = Seq<(Seq<u8>, Seq<u8>)>;

    closed spec fn view(&self) -> Seq<(Seq<u8>, Seq<u8>)> {
        Seq::new(self.entries@.len(), |i: int| (self.entries@[i].0@, self.entries@[i].1@))
    }
}

impl ImageMap {
    /// An empty map.
    pub fn new() -> (r: ImageMap)
        ensures
            r@ == Seq::<(Seq<u8>, Seq<u8>)>::empty(),
    {
        let r = ImageMap { entries: Vec::new() };
        proof {
            assert(r@ =~= Seq::<(Seq<u8>, Seq<u8>)>::empty());
        }
        r
    }

    /// The number of bindings.
    pub fn len(&self) -> (r: usize)
        ensures
            r == self@.len(),
    {
        self.entries.len()
    }

    /// The path bound to `key`, if any.
    pub fn get(&self, key: &[u8]) -> (r: Option<&Vec<u8>>)
        ensures
            match r {
                Some(v) => spec_map_get(self@, key@) == Some(v@),
                None => spec_map_get(self@, key@) is None,
            },
    {
        let mut i: usize = 0;
        proof {
            assert(self@.skip(0) =~= self@);
        }
        while i < self.entries.len()
            invariant
                0 <= i <= self.entries@.len(),
                spec_map_get(self@, key@) == spec_map_get(self@.skip(i as int), key@),
            decreases self.entries@.len() - i,
        {
            proof {
                assert(self@.skip(i as int)[0] == (self.entries@[i as int].0@,
                    self.entries@[i as int].1@));
                assert(self@.skip(i as int).drop_first() =~= self@.skip(i + 1));
            }
            if bytes_eq(self.entries[i].0.as_slice(), key) {
                return Some(&self.entries[i].1);
            }
            i += 1;
        }
        proof {
            assert(self@.skip(self@.len() as int) =~= Seq::<(Seq<u8>, Seq<u8>)>::empty());
        }
        None
    }

    /// Binds `key` to `val`, replacing any earlier binding of the same key.
    pub fn set(&mut self, key: Vec<u8>, val: Vec<u8>)
        ensures
            final(self)@ == spec_map_set(old(self)@, key@, val@),
    {
        let ghost orig = self@;
        let mut i: usize = 0;
        while i < self.entries.len()
            invariant
                0 <= i <= self.entries@.len(),
                self@ == orig,
                orig == old(self)@,
                forall|k: int| 0 <= k < i ==> orig[k].0 != key@,
            decreases self.entries@.len() - i,
        {
            if bytes_eq(self.entries[i].0.as_slice(), key.as_slice()) {
                proof {
                    assert(orig[i as int].0 == key@);
                }
                self.entries.remove(i);
                self.entries.insert(i, (key, val));
                proof {
                    assert(self@ =~= orig.update(i as int, (key@, val@)));
                    lemma_set_middle(orig, self@, i as int, key@, val@);
                }
                return;
            }
            i += 1;
        }
        self.entries.push((key, val));
        proof {
            lemma_set_append(orig, self@, key@, val@);
        }
    }
}

proof fn lemma_set_middle(
    orig: Seq<(Seq<u8>, Seq<u8>)>,
    now: Seq<(Seq<u8>, Seq<u8>)>,
    i: int,
    key: Seq<u8>,
    val: Seq<u8>,
)
    requires
        0 <= i < orig.len(),
        now =~= orig.update(i, (key, val)),
        orig[i].0 == key,
        forall|k: int| 0 <= k < i ==> orig[k].0 != key,
    ensures
        now == spec_map_set(orig, key, val),
    decreases i,
{
    if i == 0 {
        assert(spec_map_set(orig, key, val) =~= seq![(key, val)] + orig.drop_first());
        assert(now =~= seq![(key, val)] + orig.drop_first());
    } else {
        assert(now.drop_first() =~= orig.drop_first().update(i - 1, (key, val)));
        assert(forall|k: int| 0 <= k < i - 1 ==> orig.drop_first()[k] == orig[k + 1]);
        lemma_set_middle(orig.drop_first(), now.drop_first(), i - 1, key, val);
        assert(spec_map_set(orig, key, val) == seq![orig[0]] + spec_map_set(
            orig.drop_first(),
            key,
            val,
        ));
        assert(now =~= seq![orig[0]] + now.drop_first());
    }
}

proof fn lemma_set_append(
    orig: Seq<(Seq<u8>, Seq<u8>)>,
    now: Seq<(Seq<u8>, Seq<u8>)>,
    key: Seq<u8>,
    val: Seq<u8>,
)
    requires
        now =~= orig.push((key, val)),
        forall|k: int| 0 <= k < orig.len() ==> orig[k].0 != key,
    ensures
        now == spec_map_set(orig, key, val),
    decreases orig.len(),
{
    if orig.len() == 0 {
        assert(now =~= seq![(key, val)]);
    } else {
        assert(now.drop_first() =~= orig.drop_first().push((key, val)));
        assert(forall|k: int| 0 <= k < orig.len() - 1 ==> orig.drop_first()[k] == orig[k + 1]);
        lemma_set_append(orig.drop_first(), now.drop_first(), key, val);
        assert(now =~= seq![orig[0]] + now.drop_first());
    }
}

} // verus!
