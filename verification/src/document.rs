//! The parsed document: a canonical root tree populated by absolute sections,
//! a separate tree for relative sections, and dot-path get / set / merge over
//! both, specified against finite-map models.

use vstd::prelude::*;

use crate::chars::chars_of;
use crate::chars::string_of;
use crate::error::AdfError;
use crate::value::SpecValue;
use crate::value::Value;
use crate::value::clone_fields;
use crate::value::entries_set;
use crate::value::entries_view;
use crate::value::obj_keys_unique;
use crate::value::obj_model;
use crate::value::obj_wf;
use crate::value::object_get;
use crate::value::object_set;
use vstd::string::StringExecFns;

verus! {

/// The views of a sequence of strings.
pub open spec fn strs_view(s: Seq<String>) -> Seq<Seq<char>> {
    Seq::new(s.len(), |i: int| s[i]@)
}

/// A path segment with surrounding double quotes removed.
pub open spec fn unquote_spec(k: Seq<char>) -> Seq<char> {
    if k.len() >= 2 && k[0] == '"' && k[k.len() - 1] == '"' {
        k.subrange(1, k.len() - 1)
    } else {
        k
    }
}

/// State of the dot-path splitter after reading `p`: the segments flushed so
/// far, the pending segment, and whether a double quote is open. A quote
/// toggles protection (a `.` inside quotes does not split); an unprotected
/// `.` flushes the pending segment if it is non-empty; flushed segments are
/// unquoted.
pub open spec fn path_state(p: Seq<char>) -> (Seq<Seq<char>>, Seq<char>, bool)
    decreases p.len(),
{
    if p.len() == 0 {
        (Seq::empty(), Seq::empty(), false)
    } else {
        let st = path_state(p.take(p.len() - 1));
        let c = p[p.len() - 1];
        if c == '"' {
            (st.0, st.1.push(c), !st.2)
        } else if c == '.' && !st.2 {
            if st.1.len() > 0 {
                (st.0.push(unquote_spec(st.1)), Seq::empty(), st.2)
            } else {
                (st.0, Seq::empty(), st.2)
            }
        } else {
            (st.0, st.1.push(c), st.2)
        }
    }
}

/// The segments of a dot-path, quote-aware, with quoted segments unquoted.
pub open spec fn path_parts(p: Seq<char>) -> Seq<Seq<char>> {
    let st = path_state(p);
    if st.1.len() > 0 {
        st.0.push(unquote_spec(st.1))
    } else {
        st.0
    }
}

/// A path segment with surrounding double quotes removed.
fn unquote_key(k: &Vec<char>) -> (r: Vec<char>)
    ensures
        r@ == unquote_spec(k@),
{
    if k.len() >= 2 && k[0] == '"' && k[k.len() - 1] == '"' {
        crate::chars::sub_chars(k, 1, k.len() - 1)
    } else {
        let r = crate::chars::sub_chars(k, 0, k.len());
        proof {
            assert(k@.subrange(0, k@.len() as int) =~= k@);
        }
        r
    }
}

/// Split a dot-path into segments, respecting double-quoted segments.
fn parse_path(p: &Vec<char>) -> (r: Vec<String>)
    ensures
        strs_view(r@) == path_parts(p@),
{
    let mut parts: Vec<String> = Vec::new();
    let mut cur: Vec<char> = Vec::new();
    let mut in_quotes: bool = false;
    let mut i: usize = 0;
    while i < p.len()
        invariant
            0 <= i <= p@.len(),
            strs_view(parts@) == path_state(p@.take(i as int)).0,
            cur@ == path_state(p@.take(i as int)).1,
            in_quotes == path_state(p@.take(i as int)).2,
        decreases p@.len() - i,
    {
        let ghost pre = p@.take(i as int);
        let c = p[i];
        proof {
            assert(p@.take(i + 1).take(i as int) =~= pre);
            assert(p@.take(i + 1)[i as int] == c);
        }
        if c == '"' {
            cur.push(c);
            in_quotes = !in_quotes;
        } else if c == '.' && !in_quotes {
            if cur.len() > 0 {
                let seg = unquote_key(&cur);
                parts.push(string_of(&seg));
                cur = Vec::new();
                proof {
                    assert(strs_view(parts@) =~= path_state(p@.take(i + 1)).0);
                }
            } else {
                cur = Vec::new();
            }
        } else {
            cur.push(c);
        }
        i = i + 1;
    }
    proof {
        assert(p@.take(p@.len() as int) =~= p@);
    }
    if cur.len() > 0 {
        let seg = unquote_key(&cur);
        parts.push(string_of(&seg));
        proof {
            assert(strs_view(parts@) =~= path_parts(p@));
        }
    } else {
        proof {
            assert(strs_view(parts@) =~= path_parts(p@));
        }
    }
    parts
}

/// Look a segment path up in a value: each segment descends into an object
/// field; the empty path is the value itself.
pub open spec fn model_get_value(v: SpecValue, segs: Seq<Seq<char>>) -> Option<SpecValue>
    decreases segs.len(),
{
    if segs.len() == 0 {
        Some(v)
    } else {
        match v {
            SpecValue::Object(m) => if m.dom().contains(segs[0]) {
                model_get_value(m[segs[0]], segs.skip(1))
            } else {
                None
            },
            _ => None,
        }
    }
}

/// Look a segment path up in a root map.
pub open spec fn model_get(m: Map<Seq<char>, SpecValue>, segs: Seq<Seq<char>>) -> Option<
    SpecValue,
> {
    model_get_value(SpecValue::Object(m), segs)
}

/// Set a non-empty segment path in a map: intermediate objects are created
/// where missing; an intermediate that exists and is not an object is a
/// conflict (`None`).
pub open spec fn model_set_map(
    m: Map<Seq<char>, SpecValue>,
    segs: Seq<Seq<char>>,
    v: SpecValue,
) -> Option<Map<Seq<char>, SpecValue>>
    decreases segs.len(),
{
    if segs.len() <= 1 {
        Some(m.insert(segs[0], v))
    } else if m.dom().contains(segs[0]) && !(m[segs[0]] is Object) {
        None
    } else {
        let cm = if m.dom().contains(segs[0]) {
            m[segs[0]]->Object_0
        } else {
            Map::<Seq<char>, SpecValue>::empty()
        };
        match model_set_map(cm, segs.skip(1), v) {
            Some(r) => Some(m.insert(segs[0], SpecValue::Object(r))),
            None => None,
        }
    }
}

/// The object map a key leads to: the key's object where it holds one, the
/// empty map where it is absent.
pub open spec fn child_map(m: Map<Seq<char>, SpecValue>, k: Seq<char>) -> Map<Seq<char>, SpecValue> {
    if m.dom().contains(k) {
        m[k]->Object_0
    } else {
        Map::<Seq<char>, SpecValue>::empty()
    }
}

/// What a path set does to an object's ordered field entries (model `m` of
/// the same object given alongside): the top-level key is bound in place or
/// appended; a deeper path binds it to the updated child object.
pub open spec fn es_set_path(
    es: Seq<(Seq<char>, SpecValue)>,
    m: Map<Seq<char>, SpecValue>,
    segs: Seq<Seq<char>>,
    v: SpecValue,
) -> Seq<(Seq<char>, SpecValue)> {
    entries_set(
        es,
        segs[0],
        if segs.len() <= 1 {
            v
        } else {
            SpecValue::Object(model_set_map(child_map(m, segs[0]), segs.skip(1), v)->0)
        },
    )
}

/// The depth of the first conflicting segment of a set: the least index
/// whose segment already exists in the walk and holds a non-object.
/// Meaningful exactly when `model_set_map` is `None`.
pub open spec fn model_set_conflict(m: Map<Seq<char>, SpecValue>, segs: Seq<Seq<char>>) -> int
    decreases segs.len(),
{
    if segs.len() <= 1 {
        0
    } else if m.dom().contains(segs[0]) && !(m[segs[0]] is Object) {
        0
    } else {
        let cm = if m.dom().contains(segs[0]) {
            m[segs[0]]->Object_0
        } else {
            Map::<Seq<char>, SpecValue>::empty()
        };
        1 + model_set_conflict(cm, segs.skip(1))
    }
}

/// Set a non-empty segment path in an object's field list, functionally.
/// `Err` carries the index of the conflicting segment.
pub(crate) fn obj_set_path(fields: &Vec<(String, Value)>, segs: &Vec<String>, idx: usize, val: Value) -> (r:
    Result<Vec<(String, Value)>, usize>)
    requires
        obj_wf(fields@),
        val.wf(),
        idx < segs@.len(),
    ensures
        match r {
            Ok(out) => obj_wf(out@) && Some(obj_model(out@)) == model_set_map(
                obj_model(fields@),
                strs_view(segs@).skip(idx as int),
                val@,
            ) && entries_view(out@) == es_set_path(
                entries_view(fields@),
                obj_model(fields@),
                strs_view(segs@).skip(idx as int),
                val@,
            ),
            Err(e) => model_set_map(obj_model(fields@), strs_view(segs@).skip(idx as int), val@)
                is None && idx <= e < segs@.len() && e as int == idx + model_set_conflict(
                obj_model(fields@),
                strs_view(segs@).skip(idx as int),
            ),
        },
    decreases segs@.len() - idx,
{
    let ghost m = obj_model(fields@);
    let ghost ss = strs_view(segs@).skip(idx as int);
    proof {
        assert(ss.len() == segs@.len() - idx);
        assert(ss[0] == segs@[idx as int]@);
    }
    if idx == segs.len() - 1 {
        let out = object_set(fields, &segs[idx], val);
        Ok(out)
    } else {
        let child: Result<Vec<(String, Value)>, usize> = match object_get(fields, &segs[idx]) {
            None => {
                let empty: Vec<(String, Value)> = Vec::new();
                proof {
                    assert(obj_model(empty@) =~= Map::<Seq<char>, SpecValue>::empty());
                }
                obj_set_path(&empty, segs, idx + 1, val)
            },
            Some(v) => {
                match v {
                    Value::Object(fs) => obj_set_path(fs, segs, idx + 1, val),
                    _ => {
                        return Err(idx);
                    },
                }
            },
        };
        proof {
            assert(ss.skip(1) =~= strs_view(segs@).skip(idx + 1));
        }
        match child {
            Ok(sub) => {
                let out = object_set(fields, &segs[idx], Value::Object(sub));
                Ok(out)
            },
            Err(e) => Err(e),
        }
    }
}

/// Deep merge: when base and overlay are both objects, the result holds every
/// key of either, recursing where both hold objects; in every other case the
/// overlay replaces the base wholesale (arrays and scalars are never merged
/// element-wise).
pub open spec fn spec_deep_merge(b: SpecValue, o: SpecValue) -> SpecValue
    decreases o,
{
    if b is Object && o is Object {
        let bm = b->Object_0;
        let om = o->Object_0;
        SpecValue::Object(
            Map::new(
                |k: Seq<char>| bm.dom().contains(k) || om.dom().contains(k),
                |k: Seq<char>|
                    if om.dom().contains(k) {
                        if bm.dom().contains(k) {
                            spec_deep_merge(bm[k], om[k])
                        } else {
                            om[k]
                        }
                    } else {
                        bm[k]
                    },
            ),
        )
    } else {
        o
    }
}

/// What one overlay entry `(k, ov)` contributes when merged over base map
/// `bm`.
pub open spec fn merge_entry(bm: Map<Seq<char>, SpecValue>, k: Seq<char>, ov: SpecValue) -> SpecValue {
    if bm.dom().contains(k) {
        spec_deep_merge(bm[k], ov)
    } else {
        ov
    }
}

/// The merged map of two object models.
pub open spec fn merged_map(
    bm: Map<Seq<char>, SpecValue>,
    om: Map<Seq<char>, SpecValue>,
) -> Map<Seq<char>, SpecValue> {
    spec_deep_merge(SpecValue::Object(bm), SpecValue::Object(om))->Object_0
}

/// Deep-merge two objects' field lists.
#[verifier::loop_isolation(false)]
fn deep_merge_objects(base: &Vec<(String, Value)>, overlay: &Vec<(String, Value)>) -> (r: Vec<
    (String, Value),
>)
    requires
        obj_wf(base@),
        obj_wf(overlay@),
    ensures
        obj_wf(r@),
        obj_model(r@) == merged_map(obj_model(base@), obj_model(overlay@)),
    decreases *overlay,
{
    let ghost bm = obj_model(base@);
    let mut result = clone_fields(base);
    proof {
        assert(obj_model(overlay@.take(0)) =~= Map::<Seq<char>, SpecValue>::empty());
        assert(obj_model(result@) =~= merged_map(bm, obj_model(overlay@.take(0))));
    }
    let mut i: usize = 0;
    while i < overlay.len()
        invariant
            0 <= i <= overlay@.len(),
            obj_wf(result@),
            obj_model(result@) == merged_map(bm, obj_model(overlay@.take(i as int))),
        decreases overlay@.len() - i,
    {
        let ghost pm = obj_model(overlay@.take(i as int));
        let ghost k = overlay@[i as int].0@;
        let ghost ov = overlay@[i as int].1.model();
        proof {
            assert(overlay@.take(i + 1).subrange(0, i as int) =~= overlay@.take(i as int));
            assert(overlay@.take(i + 1)[i as int] == overlay@[i as int]);
            assert(obj_model(overlay@.take(i + 1)) == pm.insert(k, ov));
            // `k` is new to the prefix, by key uniqueness.
            crate::value::lemma_obj_model_contains(overlay@.take(i as int), k);
            assert(!pm.dom().contains(k));
            // One overlay entry extends the merged map by `merge_entry`.
            assert(merged_map(bm, pm.insert(k, ov)) =~= merged_map(bm, pm).insert(
                k,
                merge_entry(bm, k, ov),
            ));
            assert(overlay@[i as int].1.wf());
        }
        let key = &overlay[i].0;
        let oval = &overlay[i].1;
        let to_insert: Value = {
            let existing = object_get(&result, key);
            match (existing, oval) {
                (Some(Value::Object(bfs)), Value::Object(ofs)) => {
                    proof {
                        assert(*oval == Value::Object(*ofs));
                        assert(decreases_to!(*overlay => overlay@));
                        assert(decreases_to!(overlay@ => overlay@[i as int]));
                        assert(decreases_to!(overlay@[i as int] => overlay@[i as int].1));
                        assert(decreases_to!(overlay@[i as int].1 => *ofs));
                        assert(obj_wf(ofs@));
                        assert(obj_model(result@)[k] == bm[k]);
                    }
                    Value::Object(deep_merge_objects(bfs, ofs))
                },
                (_, ov_other) => {
                    proof {
                        if obj_model(result@).dom().contains(k) {
                            assert(obj_model(result@)[k] == bm[k]);
                        }
                    }
                    ov_other.clone()
                },
            }
        };
        proof {
            assert(to_insert@ == merge_entry(bm, k, ov));
        }
        result = object_set(&result, key, to_insert);
        i = i + 1;
    }
    proof {
        assert(overlay@.take(overlay@.len() as int) =~= overlay@);
    }
    result
}

/// A parsed document: the canonical absolute tree (`root`) and the separate
/// tree populated by relative sections.
#[derive(Debug)]
pub struct Document {
    root: Vec<(String, Value)>,
    relative_sections: Vec<(String, Value)>,
}

impl Document {
    /// Model of the canonical absolute tree.
    pub closed spec fn root_model(self) -> Map<Seq<char>, SpecValue> {
        obj_model(self.root@)
    }

    /// Model of the relative-section tree.
    pub closed spec fn rel_model(self) -> Map<Seq<char>, SpecValue> {
        obj_model(self.relative_sections@)
    }

    /// Both trees are well-formed objects.
    pub closed spec fn wf(self) -> bool {
        obj_wf(self.root@) && obj_wf(self.relative_sections@)
    }

    /// A new empty document.
    pub fn new() -> (r: Document)
        ensures
            r.wf(),
            r.root_model() == Map::<Seq<char>, SpecValue>::empty(),
            r.rel_model() == Map::<Seq<char>, SpecValue>::empty(),
    {
        Document { root: Vec::new(), relative_sections: Vec::new() }
    }

    /// The value at a dot-path in the root tree, if every segment exists and
    /// every intermediate is an object; the empty path is the whole root.
    pub fn get(&self, path: &str) -> (r: Option<Value>)
        requires
            self.wf(),
        ensures
            match r {
                Some(v) => model_get(self.root_model(), path_parts(path@)) == Some(v@) && v.wf(),
                None => model_get(self.root_model(), path_parts(path@)) is None,
            },
    {
        let pv = chars_of(path);
        let parts = parse_path(&pv);
        let ghost segs = path_parts(path@);
        if parts.len() == 0 {
            return Some(Value::Object(clone_fields(&self.root)));
        }
        let first = match object_get(&self.root, &parts[0]) {
            Some(v) => v,
            None => {
                return None;
            },
        };
        let mut cur: &Value = first;
        let mut i: usize = 1;
        proof {
            assert(segs[0] == parts@[0]@);
        }

        while i < parts.len()
            invariant
                1 <= i <= parts@.len(),
                segs == strs_view(parts@),
                segs == path_parts(path@),
                self.wf(),
                cur.wf(),
                model_get(self.root_model(), segs) == model_get_value(cur@, segs.skip(i as int)),
            decreases parts@.len() - i,
        {
            proof {
                assert(segs.skip(i as int)[0] == segs[i as int]);
                assert(segs[i as int] == parts@[i as int]@);
            }
            match cur {
                Value::Object(fs) => {
                    proof {
                        assert(*cur == Value::Object(*fs));
                        assert(cur@ == SpecValue::Object(obj_model(fs@)));
                        assert(obj_wf(fs@));
                        assert(obj_keys_unique(fs@));
                    }
                    match object_get(fs, &parts[i]) {
                        Some(v) => {
                            proof {
                                assert(segs.skip(i as int).skip(1) =~= segs.skip(i + 1));
                            }
                            cur = v;
                            i = i + 1;
                        },
                        None => {
                            proof {
                                assert(model_get_value(cur@, segs.skip(i as int)) is None);
                            }
                            return None;
                        },
                    }
                },
                _ => {
                    proof {
                        assert(!(cur@ is Object));
                        assert(model_get_value(cur@, segs.skip(i as int)) is None);
                    }
                    return None;
                },
            }
        }
        proof {
            assert(segs.skip(parts@.len() as int) =~= Seq::<Seq<char>>::empty());
        }
        Some(cur.clone())
    }

    /// Set a dot-path in the root tree to a value, creating intermediate
    /// objects as needed. A pre-existing non-object intermediate is a
    /// `ValidationError` and leaves the document unchanged. The empty path
    /// replaces the whole root when the value is an object, and does nothing
    /// otherwise.
    pub fn set(&mut self, path: &str, value: Value) -> (r: Result<(), AdfError>)
        requires
            old(self).wf(),
            value.wf(),
        ensures
            final(self).wf(),
            final(self).rel_model() == old(self).rel_model(),
            ({
                let segs = path_parts(path@);
                if path@.len() == 0 {
                    &&& r is Ok
                    &&& (if value@ is Object {
                        final(self).root_model() == value@->Object_0
                    } else {
                        final(self).root_model() == old(self).root_model()
                    })
                } else if segs.len() == 0 {
                    r is Ok && final(self).root_model() == old(self).root_model()
                } else {
                    match model_set_map(old(self).root_model(), segs, value@) {
                        Some(m) => r is Ok && final(self).root_model() == m,
                        None => {
                            &&& r matches Err(AdfError::ValidationError { path: ep, message: em })
                            &&& ep@ == path@
                            &&& em@ == "Cannot set nested value: '"@ + segs[model_set_conflict(
                                old(self).root_model(),
                                segs,
                            )] + "' is not an object"@
                            &&& final(self).root_model() == old(self).root_model()
                        },
                    }
                }
            }),
    {
        let pv = chars_of(path);
        let parts = parse_path(&pv);
        if path.is_empty() {
            match value {
                Value::Object(fs) => {
                    self.root = fs;
                },
                _ => {},
            }
            return Ok(());
        }
        if parts.len() == 0 {
            return Ok(());
        }
        match obj_set_path(&self.root, &parts, 0, value) {
            Ok(out) => {
                proof {
                    assert(strs_view(parts@).skip(0) =~= strs_view(parts@));
                }
                self.root = out;
                Ok(())
            },
            Err(e) => {
                proof {
                    assert(strs_view(parts@).skip(0) =~= strs_view(parts@));
                    assert(parts@[e as int]@ == path_parts(path@)[e as int]);
                }
                let msg = String::from_str("Cannot set nested value: '").concat(
                    parts[e].as_str(),
                ).concat("' is not an object");
                Err(AdfError::validation_error(path.to_owned(), msg))
            },
        }
    }

    /// Insert a value at a dot-path in the relative-section tree: direct
    /// assignment, no merge; a later insertion at the same path overwrites.
    /// A pre-existing non-object intermediate is a `ValidationError`. The
    /// empty path does nothing.
    pub fn add_relative_section(&mut self, path: &str, value: Value) -> (r: Result<(), AdfError>)
        requires
            old(self).wf(),
            value.wf(),
        ensures
            final(self).wf(),
            final(self).root_model() == old(self).root_model(),
            ({
                let segs = path_parts(path@);
                if segs.len() == 0 {
                    r is Ok && final(self).rel_model() == old(self).rel_model()
                } else {
                    match model_set_map(old(self).rel_model(), segs, value@) {
                        Some(m) => r is Ok && final(self).rel_model() == m,
                        None => {
                            &&& r matches Err(AdfError::ValidationError { path: ep, message: em })
                            &&& ep@ == path@
                            &&& em@ == "Cannot add relative section: '"@ + segs[model_set_conflict(
                                old(self).rel_model(),
                                segs,
                            )] + "' is not an object"@
                            &&& final(self).rel_model() == old(self).rel_model()
                        },
                    }
                }
            }),
    {
        let pv = chars_of(path);
        let parts = parse_path(&pv);
        if parts.len() == 0 {
            return Ok(());
        }
        match obj_set_path(&self.relative_sections, &parts, 0, value) {
            Ok(out) => {
                proof {
                    assert(strs_view(parts@).skip(0) =~= strs_view(parts@));
                }
                self.relative_sections = out;
                Ok(())
            },
            Err(e) => {
                proof {
                    assert(strs_view(parts@).skip(0) =~= strs_view(parts@));
                    assert(parts@[e as int]@ == path_parts(path@)[e as int]);
                }
                let msg = String::from_str("Cannot add relative section: '").concat(
                    parts[e].as_str(),
                ).concat("' is not an object");
                Err(AdfError::validation_error(path.to_owned(), msg))
            },
        }
    }

    /// Deep-merge another document's root tree into this one's root tree;
    /// relative sections are not merged.
    pub fn merge(&mut self, other: &Document)
        requires
            old(self).wf(),
            other.wf(),
        ensures
            final(self).wf(),
            final(self).root_model() == merged_map(old(self).root_model(), other.root_model()),
            final(self).rel_model() == old(self).rel_model(),
    {
        let merged = deep_merge_objects(&self.root, &other.root);
        self.root = merged;
    }

    /// Merge a value at a dot-path: when both the existing value there and
    /// the incoming value are objects they are deep-merged; otherwise this is
    /// exactly `set`.
    pub fn merge_at_path(&mut self, path: &str, value: Value) -> (r: Result<(), AdfError>)
        requires
            old(self).wf(),
            value.wf(),
        ensures
            final(self).wf(),
            final(self).rel_model() == old(self).rel_model(),
            ({
                let segs = path_parts(path@);
                match model_merge_at(old(self).root_model(), path@, value@) {
                    Some(m) => r is Ok && final(self).root_model() == m,
                    None => {
                        &&& r matches Err(AdfError::ValidationError { path: ep, message: em })
                        &&& ep@ == path@
                        &&& em@ == "Cannot set nested value: '"@ + segs[model_set_conflict(
                            old(self).root_model(),
                            segs,
                        )] + "' is not an object"@
                        &&& final(self).root_model() == old(self).root_model()
                    },
                }
            }),
    {
        let ghost segs = path_parts(path@);
        let ghost v = value@;
        let existing = self.get(path);
        let merged_value: Value = match existing {
            Some(ex) => {
                match (ex, value) {
                    (Value::Object(efs), Value::Object(vfs)) => {
                        proof {
                            assert(obj_wf(efs@));
                        }
                        Value::Object(deep_merge_objects(&efs, &vfs))
                    },
                    (_, other_value) => other_value,
                }
            },
            None => value,
        };
        proof {
            let ex = model_get(old(self).root_model(), segs);
            let v2 = if ex is Some && ex->0 is Object && v is Object {
                spec_deep_merge(ex->0, v)
            } else {
                v
            };
            assert(merged_value@ == v2);
        }
        self.set(path, merged_value)
    }

    /// The relative-section tree.
    pub fn relative_sections(&self) -> (r: &Vec<(String, Value)>)
        ensures
            obj_model(r@) == self.rel_model(),
            self.wf() ==> obj_wf(r@),
    {
        &self.relative_sections
    }

    /// The root tree's field list, consuming the document.
    pub fn into_map(self) -> (r: Vec<(String, Value)>)
        ensures
            obj_model(r@) == self.root_model(),
            self.wf() ==> obj_wf(r@),
    {
        self.root
    }

    /// The root tree's field list.
    pub fn as_map(&self) -> (r: &Vec<(String, Value)>)
        ensures
            obj_model(r@) == self.root_model(),
            self.wf() ==> obj_wf(r@),
    {
        &self.root
    }
}

/// What `merge_at_path` does to a root map: deep-merge where the existing and
/// incoming values are both objects, otherwise plain `set` (the empty path
/// can replace the whole root; a non-empty path with no segments stores
/// nothing, as `set` does).
pub open spec fn model_merge_at(
    m: Map<Seq<char>, SpecValue>,
    path: Seq<char>,
    v: SpecValue,
) -> Option<Map<Seq<char>, SpecValue>> {
    let segs = path_parts(path);
    let ex = model_get(m, segs);
    let v2 = if ex is Some && ex->0 is Object && v is Object {
        spec_deep_merge(ex->0, v)
    } else {
        v
    };
    if path.len() == 0 {
        if v2 is Object {
            Some(v2->Object_0)
        } else {
            Some(m)
        }
    } else if segs.len() == 0 {
        Some(m)
    } else {
        model_set_map(m, segs, v2)
    }
}

/// Law: setting a non-empty path and then reading it back yields the value
/// that was set, whenever the set did not hit a conflict.
pub proof fn lemma_set_get_round_trip(
    m: Map<Seq<char>, SpecValue>,
    segs: Seq<Seq<char>>,
    v: SpecValue,
)
    requires
        segs.len() > 0,
        model_set_map(m, segs, v) is Some,
    ensures
        model_get(model_set_map(m, segs, v)->0, segs) == Some(v),
    decreases segs.len(),
{
    if segs.len() == 1 {
        assert(segs.skip(1) =~= Seq::<Seq<char>>::empty());
        let m1 = m.insert(segs[0], v);
        assert(model_set_map(m, segs, v) == Some(m1));
        assert(model_get_value(v, segs.skip(1)) == Some(v));
        assert(model_get(m1, segs) == Some(v));
    } else {
        let cm = if m.dom().contains(segs[0]) {
            m[segs[0]]->Object_0
        } else {
            Map::<Seq<char>, SpecValue>::empty()
        };
        lemma_set_get_round_trip(cm, segs.skip(1), v);
        let r = model_set_map(cm, segs.skip(1), v)->0;
        let m1 = m.insert(segs[0], SpecValue::Object(r));
        assert(model_set_map(m, segs, v) == Some(m1));
        assert(model_get_value(SpecValue::Object(r), segs.skip(1)) == Some(v));
        assert(m1.dom().contains(segs[0]) && m1[segs[0]] == SpecValue::Object(r));
        assert(model_get_value(SpecValue::Object(m1), segs) == model_get_value(
            SpecValue::Object(r),
            segs.skip(1),
        ));
    }
}

/// After a successful set at a path, another set at the same path cannot
/// conflict: every intermediate is now an object.
pub proof fn lemma_set_again_succeeds(
    m: Map<Seq<char>, SpecValue>,
    segs: Seq<Seq<char>>,
    v1: SpecValue,
    v2: SpecValue,
)
    requires
        segs.len() > 0,
        model_set_map(m, segs, v1) is Some,
    ensures
        model_set_map(model_set_map(m, segs, v1)->0, segs, v2) is Some,
    decreases segs.len(),
{
    if segs.len() == 1 {
    } else {
        let cm = if m.dom().contains(segs[0]) {
            m[segs[0]]->Object_0
        } else {
            Map::<Seq<char>, SpecValue>::empty()
        };
        lemma_set_again_succeeds(cm, segs.skip(1), v1, v2);
    }
}

/// Law: in the relative-section tree, a later write at the same path
/// overwrites the earlier one: after two sets, reading the path yields the
/// second value. It holds of every path with at least one segment; a
/// non-empty path that splits into no segments (a lone dot) stores nothing
/// in the first place.
pub proof fn lemma_set_overwrites(
    m: Map<Seq<char>, SpecValue>,
    segs: Seq<Seq<char>>,
    v1: SpecValue,
    v2: SpecValue,
)
    requires
        segs.len() > 0,
        model_set_map(m, segs, v1) is Some,
    ensures
        model_set_map(model_set_map(m, segs, v1)->0, segs, v2) is Some,
        model_get(model_set_map(model_set_map(m, segs, v1)->0, segs, v2)->0, segs) == Some(v2),
{
    lemma_set_again_succeeds(m, segs, v1, v2);
    lemma_set_get_round_trip(model_set_map(m, segs, v1)->0, segs, v2);
}

/// Law: deep merge with an empty overlay object returns the base object
/// unchanged.
pub proof fn lemma_deep_merge_empty_overlay(b: SpecValue)
    requires
        b is Object,
    ensures
        spec_deep_merge(b, SpecValue::Object(Map::empty())) == b,
{
    let bm = b->Object_0;
    assert(merged_map(bm, Map::empty()) =~= bm);
    assert(spec_deep_merge(b, SpecValue::Object(Map::empty())) == SpecValue::Object(bm));
}

/// Deep merge of a value with itself returns the value.
pub proof fn lemma_deep_merge_self(x: SpecValue)
    ensures
        spec_deep_merge(x, x) == x,
    decreases x,
{
    if x is Object {
        let xm = x->Object_0;
        assert forall|k: Seq<char>| xm.dom().contains(k) implies merged_map(xm, xm)[k] == xm[k] by {
            lemma_deep_merge_self(xm[k]);
        }
        assert(merged_map(xm, xm) =~= xm);
        assert(spec_deep_merge(x, x) == SpecValue::Object(xm));
    }
}

/// Law: merging the same overlay a second time changes nothing — overlay
/// replacement of scalars and arrays is not additive.
pub proof fn lemma_deep_merge_remerge(a: SpecValue, b: SpecValue)
    ensures
        spec_deep_merge(spec_deep_merge(a, b), b) == spec_deep_merge(a, b),
    decreases b,
{
    if a is Object && b is Object {
        let am = a->Object_0;
        let bm = b->Object_0;
        let m1 = merged_map(am, bm);
        assert forall|k: Seq<char>| bm.dom().contains(k) implies merged_map(m1, bm)[k] == m1[k] by {
            if am.dom().contains(k) {
                lemma_deep_merge_remerge(am[k], bm[k]);
            } else {
                lemma_deep_merge_self(bm[k]);
            }
        }
        assert(merged_map(m1, bm) =~= m1);
        assert(spec_deep_merge(spec_deep_merge(a, b), b) == SpecValue::Object(m1));
    } else {
        lemma_deep_merge_self(b);
    }
}

/// Law: repeated absolute headers at one path merge their fields. After
/// merging object `o1` and then object `o2` at a non-empty path, the path
/// holds the deep merge of what stood there (if an object) with `o1`, deep-
/// merged again with `o2`.
pub proof fn lemma_absolute_remerge(
    m: Map<Seq<char>, SpecValue>,
    path: Seq<char>,
    o1: SpecValue,
    o2: SpecValue,
)
    requires
        path_parts(path).len() > 0,
        o1 is Object,
        o2 is Object,
        model_merge_at(m, path, o1) is Some,
    ensures
        model_merge_at(model_merge_at(m, path, o1)->0, path, o2) is Some,
        ({
            let segs = path_parts(path);
            let ex = model_get(m, segs);
            let v1 = if ex is Some && ex->0 is Object {
                spec_deep_merge(ex->0, o1)
            } else {
                o1
            };
            model_get(model_merge_at(model_merge_at(m, path, o1)->0, path, o2)->0, segs)
                == Some(spec_deep_merge(v1, o2))
        }),
{
    let segs = path_parts(path);
    let ex = model_get(m, segs);
    let v1 = if ex is Some && ex->0 is Object {
        spec_deep_merge(ex->0, o1)
    } else {
        o1
    };
    let m1 = model_merge_at(m, path, o1)->0;
    assert(model_set_map(m, segs, v1) == Some(m1));
    lemma_set_get_round_trip(m, segs, v1);
    assert(model_get(m1, segs) == Some(v1));
    assert(v1 is Object);
    let v2 = spec_deep_merge(v1, o2);
    lemma_set_again_succeeds(m, segs, v1, v2);
    assert(model_merge_at(m1, path, o2) == model_set_map(m1, segs, v2));
    lemma_set_get_round_trip(m1, segs, v2);
}

impl Default for Document {
    /// A new empty document.
    fn default() -> (r: Document)
        ensures
            r.wf(),
            r.root_model() == Map::<Seq<char>, SpecValue>::empty(),
            r.rel_model() == Map::<Seq<char>, SpecValue>::empty(),
    {
        Document::new()
    }
}

} // verus!
