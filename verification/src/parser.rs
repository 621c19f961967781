//! The parser: groups the token stream into sections at header tokens,
//! classifies each section's shape from blank-line placement alone, infers
//! scalar types, and populates a document — absolute sections merging into
//! the canonical tree, relative sections overwriting their own tree.

use vstd::prelude::*;

use crate::chars::chars_of;
use crate::chars::spec_lines;
use crate::chars::split_char;
use crate::chars::string_of;
use crate::document::Document;
use crate::document::es_set_path;
use crate::document::model_merge_at;
use crate::document::model_set_conflict;
use crate::document::model_set_map;
use crate::document::obj_set_path;
use crate::document::path_parts;
use crate::document::strs_view;
use crate::error::AdfError;
use crate::lexer::LexState;
use crate::lexer::Lexer;
use crate::lexer::SpecToken;
use crate::lexer::Token;
use crate::lexer::TokenType;
use crate::lexer::spec_tokens;
use crate::lexer::tokens_view;
use crate::literals::is_f64_literal;
use crate::literals::is_false_literal;
use crate::literals::is_float_literal;
use crate::literals::is_i64_literal;
use crate::literals::is_true_lit;
use crate::literals::is_false_lit;
use crate::literals::is_true_literal;
use crate::literals::i64_value;
use crate::literals::parse_i64;
use crate::value::SpecValue;
use crate::value::Value;
use crate::value::arr_model;
use crate::value::obj_model;
use crate::value::entries_view;
use crate::value::obj_wf;
use crate::value::object_set;
use vstd::string::StringExecFns;

verus! {

/// Options controlling a parse.
pub struct ParseOptions {
    /// Infer booleans, integers and floats from scalar text (default on).
    pub infer_types: bool,
    /// Reserved; the parsing algorithm does not consult it.
    pub strict: bool,
}

impl Default for ParseOptions {
    /// Type inference on, strict off.
    fn default() -> (r: ParseOptions)
        ensures
            r.infer_types == true,
            r.strict == false,
    {
        ParseOptions { infer_types: true, strict: false }
    }
}

/// The parser, configured by `ParseOptions`.
pub struct Parser {
    infer_types: bool,
    strict: bool,
}

/// What a scalar's text denotes: with inference off, the text itself; with it
/// on, boolean keywords first, then integer literals, then float literals,
/// then the text itself.
pub open spec fn spec_infer(s: Seq<char>, infer: bool) -> SpecValue {
    if !infer {
        SpecValue::Text(s)
    } else if is_true_literal(s) {
        SpecValue::Boolean(true)
    } else if is_false_literal(s) {
        SpecValue::Boolean(false)
    } else if is_i64_literal(s) {
        SpecValue::Integer(i64_value(s) as i64)
    } else if is_f64_literal(s) {
        SpecValue::FloatLit(s)
    } else {
        SpecValue::Text(s)
    }
}

/// A section: the run of tokens between two consecutive headers, under the
/// opening header's path and absoluteness.
#[verifier::ext_equal]
pub struct SpecSection {
    pub path: Seq<char>,
    pub absolute: bool,
    pub toks: Seq<SpecToken>,
}

/// Model of a document: the canonical absolute tree and the relative tree.
#[verifier::ext_equal]
pub struct SpecDoc {
    pub root: Map<Seq<char>, SpecValue>,
    pub rel: Map<Seq<char>, SpecValue>,
}

/// Model of a `Document` value.
pub open spec fn doc_model(d: Document) -> SpecDoc {
    SpecDoc { root: d.root_model(), rel: d.rel_model() }
}

/// State of section splitting after reading a prefix of the token stream:
/// the closed sections, and the still-open one. Tokens before the first
/// header form an implicit absolute section with the empty path.
pub open spec fn sections_state(toks: Seq<SpecToken>) -> (Seq<SpecSection>, SpecSection)
    decreases toks.len(),
{
    if toks.len() == 0 {
        (
            Seq::empty(),
            SpecSection { path: Seq::empty(), absolute: true, toks: Seq::empty() },
        )
    } else {
        let st = sections_state(toks.take(toks.len() - 1));
        let t = toks[toks.len() - 1];
        if t.token_type == TokenType::AbsoluteHeader || t.token_type == TokenType::RelativeHeader {
            (
                st.0.push(st.1),
                SpecSection {
                    path: match t.path {
                        Some(p) => p,
                        None => Seq::empty(),
                    },
                    absolute: match t.is_absolute {
                        Some(b) => b,
                        None => false,
                    },
                    toks: Seq::empty(),
                },
            )
        } else {
            (st.0, SpecSection { toks: st.1.toks.push(t), ..st.1 })
        }
    }
}

/// The sections of a token stream, the final open section included.
pub open spec fn spec_sections(toks: Seq<SpecToken>) -> Seq<SpecSection> {
    let st = sections_state(toks);
    st.0.push(st.1)
}

/// Whether every token is a blank line.
pub open spec fn all_blank(toks: Seq<SpecToken>) -> bool {
    forall|i: int| 0 <= i < toks.len() ==> (#[trigger] toks[i]).token_type == TokenType::BlankLine
}

/// Whether some token carries a key (a key/value line or a multiline opener).
pub open spec fn spec_has_kv(toks: Seq<SpecToken>) -> bool {
    exists|i: int|
        0 <= i < toks.len() && ((#[trigger] toks[i]).token_type == TokenType::KeyValue
            || toks[i].token_type == TokenType::MultilineStart)
}

/// State of blank-separator detection: whether a blank line has followed
/// content, whether key content has followed such a blank, and whether key
/// content was just seen.
pub open spec fn blank_sep_state(toks: Seq<SpecToken>) -> (bool, bool, bool)
    decreases toks.len(),
{
    if toks.len() == 0 {
        (false, false, false)
    } else {
        let st = blank_sep_state(toks.take(toks.len() - 1));
        let t = toks[toks.len() - 1];
        if t.token_type == TokenType::BlankLine {
            if st.2 {
                (true, st.1, false)
            } else {
                st
            }
        } else if t.token_type == TokenType::KeyValue || t.token_type == TokenType::MultilineStart {
            (st.0, st.1 || st.0, true)
        } else {
            st
        }
    }
}

/// Whether a blank line stands strictly between two stretches of key
/// content — the mark of an object array.
pub open spec fn spec_has_blank_separators(toks: Seq<SpecToken>) -> bool {
    let st = blank_sep_state(toks);
    st.0 && st.1
}

/// The scalar values of a section, in order: every non-blank token's value,
/// type-inferred.
pub open spec fn spec_scalar_values(toks: Seq<SpecToken>, infer: bool) -> Seq<SpecValue>
    decreases toks.len(),
{
    if toks.len() == 0 {
        Seq::empty()
    } else {
        let pre = spec_scalar_values(toks.take(toks.len() - 1), infer);
        let t = toks[toks.len() - 1];
        if t.token_type != TokenType::BlankLine && t.value is Some {
            pre.push(spec_infer(t.value->0, infer))
        } else {
            pre
        }
    }
}

/// Parts joined with newlines.
pub open spec fn join_nl(parts: Seq<Seq<char>>) -> Seq<char>
    decreases parts.len(),
{
    if parts.len() == 0 {
        Seq::empty()
    } else if parts.len() == 1 {
        parts[0]
    } else {
        join_nl(parts.take(parts.len() - 1)) + seq!['\n'] + parts[parts.len() - 1]
    }
}

/// Fragments gathered from a run of multiline tokens, and how many tokens
/// were consumed before the closing token (or the run's end).
pub open spec fn collect_ml(rest: Seq<SpecToken>) -> (Seq<Seq<char>>, int)
    decreases rest.len(),
{
    if rest.len() == 0 {
        (Seq::empty(), 0)
    } else {
        let t = rest[0];
        if t.token_type == TokenType::MultilineEnd {
            (
                if t.value is Some && t.value->0.len() > 0 {
                    seq![t.value->0]
                } else {
                    Seq::empty()
                },
                0,
            )
        } else {
            let sub = collect_ml(rest.skip(1));
            let parts = if t.token_type == TokenType::MultilineContent && t.value is Some {
                seq![t.value->0] + sub.0
            } else {
                sub.0
            };
            (parts, 1 + sub.1)
        }
    }
}

pub proof fn lemma_collect_ml_bounds(rest: Seq<SpecToken>)
    ensures
        0 <= collect_ml(rest).1 <= rest.len(),
        rest.len() > 0 ==> (collect_ml(rest).1 < rest.len() ==> rest[collect_ml(rest).1].token_type
            == TokenType::MultilineEnd),
    decreases rest.len(),
{
    if rest.len() > 0 && rest[0].token_type != TokenType::MultilineEnd {
        lemma_collect_ml_bounds(rest.skip(1));
    }
}

/// The multiline text starting at token `start` (a multiline opener): its
/// first fragment if non-empty, then every content fragment, then the closing
/// fragment if non-empty, joined with newlines; and the index of the closing
/// token (the run's end if the block never closes).
pub open spec fn spec_collect_multiline(toks: Seq<SpecToken>, start: int) -> (Seq<char>, int) {
    let first: Seq<Seq<char>> = if toks[start].value is Some && (toks[start].value->0).len() > 0 {
        seq![toks[start].value->0]
    } else {
        Seq::empty()
    };
    let rest = collect_ml(toks.skip(start + 1));
    (join_nl(first + rest.0), start + 1 + rest.1)
}

/// What building a plain object from section tokens yields, as ordered field
/// entries: key/value lines insert their inferred value under the key, a key
/// with dots descending into nested objects (`None` on a non-object
/// intermediate); a multiline opener inserts its gathered text, never
/// inferred; other tokens are skipped. A key keeps its first position when
/// re-bound; a new key goes to the end.
pub open spec fn spec_object_entries_at(
    toks: Seq<SpecToken>,
    i: int,
    es: Seq<(Seq<char>, SpecValue)>,
    infer: bool,
) -> Option<Seq<(Seq<char>, SpecValue)>>
    decreases toks.len() - i,
    via spec_object_entries_at_dec
{
    if i < 0 || i >= toks.len() {
        Some(es)
    } else {
        let t = toks[i];
        if t.token_type == TokenType::KeyValue {
            if t.key is Some && t.value is Some {
                let segs = split_char(t.key->0, '.');
                let v = spec_infer(t.value->0, infer);
                match model_set_map(entries_map(es), segs, v) {
                    Some(_) => spec_object_entries_at(
                        toks,
                        i + 1,
                        es_set_path(es, entries_map(es), segs, v),
                        infer,
                    ),
                    None => None,
                }
            } else {
                spec_object_entries_at(toks, i + 1, es, infer)
            }
        } else if t.token_type == TokenType::MultilineStart {
            let cm = spec_collect_multiline(toks, i);
            let ni = if cm.1 + 1 > toks.len() {
                toks.len() as int
            } else {
                cm.1 + 1
            };
            if t.key is Some {
                let segs = split_char(t.key->0, '.');
                let v = SpecValue::Text(cm.0);
                match model_set_map(entries_map(es), segs, v) {
                    Some(_) => spec_object_entries_at(
                        toks,
                        ni,
                        es_set_path(es, entries_map(es), segs, v),
                        infer,
                    ),
                    None => None,
                }
            } else {
                spec_object_entries_at(toks, ni, es, infer)
            }
        } else {
            spec_object_entries_at(toks, i + 1, es, infer)
        }
    }
}

#[via_fn]
proof fn spec_object_entries_at_dec(
    toks: Seq<SpecToken>,
    i: int,
    es: Seq<(Seq<char>, SpecValue)>,
    infer: bool,
) {
    if 0 <= i < toks.len() {
        lemma_collect_ml_bounds(toks.skip(i + 1));
    }
}

/// The ordered object entries a section's tokens build.
pub open spec fn spec_object_entries(toks: Seq<SpecToken>, infer: bool) -> Option<
    Seq<(Seq<char>, SpecValue)>,
> {
    spec_object_entries_at(toks, 0, Seq::empty(), infer)
}

/// What building an object array yields: a blank line flushes the current
/// object if non-empty; key/value lines insert directly (no nested-key
/// descent); a multiline opener inserts its gathered text; the trailing
/// object is flushed at the end.
pub open spec fn spec_object_array_at(
    toks: Seq<SpecToken>,
    i: int,
    cur: Map<Seq<char>, SpecValue>,
    nonempty: bool,
    acc: Seq<SpecValue>,
    infer: bool,
) -> Seq<SpecValue>
    decreases toks.len() - i,
    via spec_object_array_at_dec
{
    if i < 0 || i >= toks.len() {
        if nonempty {
            acc.push(SpecValue::Object(cur))
        } else {
            acc
        }
    } else {
        let t = toks[i];
        if t.token_type == TokenType::BlankLine {
            if nonempty {
                spec_object_array_at(
                    toks,
                    i + 1,
                    Map::empty(),
                    false,
                    acc.push(SpecValue::Object(cur)),
                    infer,
                )
            } else {
                spec_object_array_at(toks, i + 1, cur, nonempty, acc, infer)
            }
        } else if t.token_type == TokenType::KeyValue {
            if t.key is Some && t.value is Some {
                spec_object_array_at(
                    toks,
                    i + 1,
                    cur.insert(t.key->0, spec_infer(t.value->0, infer)),
                    true,
                    acc,
                    infer,
                )
            } else {
                spec_object_array_at(toks, i + 1, cur, nonempty, acc, infer)
            }
        } else if t.token_type == TokenType::MultilineStart {
            let cm = spec_collect_multiline(toks, i);
            let ni = if cm.1 + 1 > toks.len() {
                toks.len() as int
            } else {
                cm.1 + 1
            };
            if t.key is Some {
                spec_object_array_at(
                    toks,
                    ni,
                    cur.insert(t.key->0, SpecValue::Text(cm.0)),
                    true,
                    acc,
                    infer,
                )
            } else {
                spec_object_array_at(toks, ni, cur, nonempty, acc, infer)
            }
        } else {
            spec_object_array_at(toks, i + 1, cur, nonempty, acc, infer)
        }
    }
}

#[via_fn]
proof fn spec_object_array_at_dec(
    toks: Seq<SpecToken>,
    i: int,
    cur: Map<Seq<char>, SpecValue>,
    nonempty: bool,
    acc: Seq<SpecValue>,
    infer: bool,
) {
    if 0 <= i < toks.len() {
        lemma_collect_ml_bounds(toks.skip(i + 1));
    }
}

/// The objects of an object-array section.
pub open spec fn spec_object_array(toks: Seq<SpecToken>, infer: bool) -> Seq<SpecValue> {
    spec_object_array_at(toks, 0, Map::empty(), false, Seq::empty(), infer)
}

/// Storing a value at a section's path in the root tree, as `Document::set`
/// does.
pub open spec fn store_abs(d: SpecDoc, path: Seq<char>, v: SpecValue, out: Option<SpecDoc>) -> bool {
    let segs = path_parts(path);
    if path.len() == 0 {
        if v is Object {
            out == Some(SpecDoc { root: v->Object_0, rel: d.rel })
        } else {
            out == Some(d)
        }
    } else if segs.len() == 0 {
        out == Some(d)
    } else {
        match model_set_map(d.root, segs, v) {
            Some(m) => out == Some(SpecDoc { root: m, rel: d.rel }),
            None => out is None,
        }
    }
}

/// Storing a value at a section's path in the relative tree, overwriting, as
/// `Document::add_relative_section` does.
pub open spec fn store_rel(d: SpecDoc, path: Seq<char>, v: SpecValue, out: Option<SpecDoc>) -> bool {
    let segs = path_parts(path);
    if segs.len() == 0 {
        out == Some(d)
    } else {
        match model_set_map(d.rel, segs, v) {
            Some(m) => out == Some(SpecDoc { root: d.root, rel: m }),
            None => out is None,
        }
    }
}

/// The dot-path of one object field under a section path.
pub open spec fn full_key_path(path: Seq<char>, key: Seq<char>) -> Seq<char> {
    if path.len() == 0 {
        key
    } else {
        path + seq!['.'] + key
    }
}

/// Merging an object's fields one by one at their paths under the section
/// path; `None` as soon as one conflicts.
pub open spec fn fold_merge_entries(
    root: Map<Seq<char>, SpecValue>,
    path: Seq<char>,
    entries: Seq<(Seq<char>, SpecValue)>,
) -> Option<Map<Seq<char>, SpecValue>>
    decreases entries.len(),
{
    if entries.len() == 0 {
        Some(root)
    } else {
        match model_merge_at(root, full_key_path(path, entries[0].0), entries[0].1) {
            None => None,
            Some(m2) => fold_merge_entries(m2, path, entries.skip(1)),
        }
    }
}

/// The map an entry sequence denotes, later entries winning.
pub open spec fn entries_map(s: Seq<(Seq<char>, SpecValue)>) -> Map<Seq<char>, SpecValue>
    decreases s.len(),
{
    if s.len() == 0 {
        Map::empty()
    } else {
        entries_map(s.subrange(0, s.len() - 1)).insert(s[s.len() - 1].0, s[s.len() - 1].1)
    }
}

/// The map of a field list's entry views is the field list's model.
pub proof fn lemma_entries_map_pairs(s: Seq<(String, Value)>)
    ensures
        entries_map(entries_view(s)) == obj_model(s),
    decreases s.len(),
{
    if s.len() > 0 {
        lemma_entries_map_pairs(s.subrange(0, s.len() - 1));
        assert(entries_view(s).subrange(0, s.len() - 1) =~= entries_view(
            s.subrange(0, s.len() - 1),
        ));
    }
}

/// What one section does to the document. Blank-only sections do nothing. A
/// section without key content is a scalar array; one with key content and an
/// interior blank line is an object array; otherwise it is a plain object,
/// whose fields an absolute section merges one by one, in the object's field
/// order (first occurrence of each key), and a relative section stores whole.
/// For fixed inputs exactly one outcome satisfies this relation.
pub open spec fn spec_apply_section(
    d: SpecDoc,
    sec: SpecSection,
    infer: bool,
    out: Option<SpecDoc>,
) -> bool {
    if sec.toks.len() == 0 || all_blank(sec.toks) {
        out == Some(d)
    } else if !spec_has_kv(sec.toks) {
        let arr = SpecValue::Array(spec_scalar_values(sec.toks, infer));
        if sec.absolute {
            store_abs(d, sec.path, arr, out)
        } else {
            store_rel(d, sec.path, arr, out)
        }
    } else if spec_has_blank_separators(sec.toks) {
        let arr = SpecValue::Array(spec_object_array(sec.toks, infer));
        if sec.absolute {
            store_abs(d, sec.path, arr, out)
        } else {
            store_rel(d, sec.path, arr, out)
        }
    } else {
        match spec_object_entries(sec.toks, infer) {
            None => out is None,
            Some(es) => if sec.absolute {
                match fold_merge_entries(d.root, sec.path, es) {
                    None => out is None,
                    Some(m) => out == Some(SpecDoc { root: m, rel: d.rel }),
                }
            } else {
                store_rel(d, sec.path, SpecValue::Object(entries_map(es)), out)
            },
        }
    }
}

/// What a run of sections does to the document: sections apply in order; an
/// error aborts the rest.
pub open spec fn spec_apply_sections(
    d: SpecDoc,
    secs: Seq<SpecSection>,
    infer: bool,
    out: Option<SpecDoc>,
) -> bool
    decreases secs.len(),
{
    if secs.len() == 0 {
        out == Some(d)
    } else {
        exists|mid: Option<SpecDoc>|
            {
                &&& #[trigger] spec_apply_section(d, secs[0], infer, mid)
                &&& match mid {
                    None => out is None,
                    Some(d1) => spec_apply_sections(d1, secs.skip(1), infer, out),
                }
            }
    }
}

proof fn lemma_apply_snoc(
    d0: SpecDoc,
    ss: Seq<SpecSection>,
    d1: SpecDoc,
    s: SpecSection,
    infer: bool,
    out: Option<SpecDoc>,
)
    requires
        spec_apply_sections(d0, ss, infer, Some(d1)),
        spec_apply_section(d1, s, infer, out),
    ensures
        spec_apply_sections(d0, ss.push(s), infer, out),
    decreases ss.len(),
{
    if ss.len() == 0 {
        assert(ss.push(s)[0] == s);
        assert(ss.push(s).skip(1) =~= Seq::<SpecSection>::empty());
        assert(spec_apply_section(d0, ss.push(s)[0], infer, out));
        match out {
            None => {},
            Some(d2) => {
                assert(spec_apply_sections(d2, ss.push(s).skip(1), infer, out));
            },
        }
    } else {
        let mid = choose|mid: Option<SpecDoc>|
            {
                &&& #[trigger] spec_apply_section(d0, ss[0], infer, mid)
                &&& match mid {
                    None => Some(d1) is None,
                    Some(dm) => spec_apply_sections(dm, ss.skip(1), infer, Some(d1)),
                }
            };
        assert(spec_apply_section(d0, ss[0], infer, mid));
        match mid {
            None => {
                assert(false);
            },
            Some(dm) => {
                lemma_apply_snoc(dm, ss.skip(1), d1, s, infer, out);
                assert(ss.push(s)[0] == ss[0]);
                assert(ss.push(s).skip(1) =~= ss.skip(1).push(s));
                assert(spec_apply_section(d0, ss.push(s)[0], infer, mid));
            },
        }
    }
}

/// Once a prefix of sections has failed, the whole run fails.
proof fn lemma_apply_none_extend(d0: SpecDoc, ss: Seq<SpecSection>, more: Seq<SpecSection>, infer: bool)
    requires
        spec_apply_sections(d0, ss, infer, None),
    ensures
        spec_apply_sections(d0, ss + more, infer, None),
    decreases ss.len(),
{
    if ss.len() == 0 {
        assert(false);
    } else {
        let mid = choose|mid: Option<SpecDoc>|
            {
                &&& #[trigger] spec_apply_section(d0, ss[0], infer, mid)
                &&& match mid {
                    None => None::<SpecDoc> is None,
                    Some(dm) => spec_apply_sections(dm, ss.skip(1), infer, None),
                }
            };
        assert(spec_apply_section(d0, ss[0], infer, mid));
        assert((ss + more)[0] == ss[0]);
        assert((ss + more).skip(1) =~= ss.skip(1) + more);
        match mid {
            None => {},
            Some(dm) => {
                lemma_apply_none_extend(dm, ss.skip(1), more, infer);
            },
        }
    }
}

/// The full parse relation: tokenize the text's lines from a fresh lexer,
/// split into sections, apply them to an empty document. `out` is the
/// document's model on success, `None` on error.
pub open spec fn spec_parse(text: Seq<char>, infer: bool, out: Option<SpecDoc>) -> bool {
    let lr = spec_tokens(
        LexState { in_multiline: false, quote_count: 0 },
        spec_lines(text),
        1,
    );
    spec_apply_sections(
        SpecDoc { root: Map::empty(), rel: Map::empty() },
        spec_sections(lr.1),
        infer,
        out,
    )
}

/// Law: section shape inference is purely positional. Two token runs with
/// the same kinds of token at every position classify the same way: the same
/// blankness, the same presence of key content, and the same blank-line
/// separation, whatever text the tokens carry.
pub proof fn lemma_shape_positional(t1: Seq<SpecToken>, t2: Seq<SpecToken>)
    requires
        t1.len() == t2.len(),
        forall|i: int|
            0 <= i < t1.len() ==> (#[trigger] t1[i]).token_type == (#[trigger] t2[i]).token_type,
    ensures
        all_blank(t1) == all_blank(t2),
        spec_has_kv(t1) == spec_has_kv(t2),
        blank_sep_state(t1) == blank_sep_state(t2),
        spec_has_blank_separators(t1) == spec_has_blank_separators(t2),
    decreases t1.len(),
{
    assert(all_blank(t1) == all_blank(t2)) by {
        if all_blank(t1) {
            assert forall|i: int| 0 <= i < t2.len() implies (#[trigger] t2[i]).token_type
                == TokenType::BlankLine by {
                assert(t1[i].token_type == TokenType::BlankLine);
            }
        }
        if all_blank(t2) {
            assert forall|i: int| 0 <= i < t1.len() implies (#[trigger] t1[i]).token_type
                == TokenType::BlankLine by {
                assert(t2[i].token_type == TokenType::BlankLine);
            }
        }
    }
    assert(spec_has_kv(t1) == spec_has_kv(t2)) by {
        if spec_has_kv(t1) {
            let i = choose|i: int|
                0 <= i < t1.len() && ((#[trigger] t1[i]).token_type == TokenType::KeyValue
                    || t1[i].token_type == TokenType::MultilineStart);
            assert(t2[i].token_type == t1[i].token_type);
            assert(spec_has_kv(t2));
        }
        if spec_has_kv(t2) {
            let i = choose|i: int|
                0 <= i < t2.len() && ((#[trigger] t2[i]).token_type == TokenType::KeyValue
                    || t2[i].token_type == TokenType::MultilineStart);
            assert(t1[i].token_type == t2[i].token_type);
            assert(spec_has_kv(t1));
        }
    }
    assert(blank_sep_state(t1) == blank_sep_state(t2)) by {
        if t1.len() > 0 {
            let p1 = t1.take(t1.len() - 1);
            let p2 = t2.take(t2.len() - 1);
            assert forall|i: int| 0 <= i < p1.len() implies (#[trigger] p1[i]).token_type == (
            #[trigger] p2[i]).token_type by {
                assert(p1[i] == t1[i] && p2[i] == t2[i]);
            }
            lemma_shape_positional(p1, p2);
            assert(t1[t1.len() - 1].token_type == t2[t2.len() - 1].token_type);
        }
    }
}

/// Whether a token carries key content (a key/value line or a multiline
/// opener); bare scalar lines do not count.
pub open spec fn kv_tok(t: SpecToken) -> bool {
    t.token_type == TokenType::KeyValue || t.token_type == TokenType::MultilineStart
}

/// The blank-separator flags never go back to false as more tokens follow.
proof fn lemma_blank_sep_persists(toks: Seq<SpecToken>, m: int, n: int)
    requires
        0 <= m <= n <= toks.len(),
    ensures
        blank_sep_state(toks.take(m)).0 ==> blank_sep_state(toks.take(n)).0,
        blank_sep_state(toks.take(m)).1 ==> blank_sep_state(toks.take(n)).1,
    decreases n - m,
{
    if m < n {
        assert(toks.take(m + 1).take(m) =~= toks.take(m));
        assert(toks.take(m + 1)[m] == toks[m]);
        lemma_blank_sep_persists(toks, m + 1, n);
    }
}

/// After key content at `i`, every prefix end `t > i` has either key content
/// pending or the blank flag set.
proof fn lemma_content_then_flag(toks: Seq<SpecToken>, i: int, t: int)
    requires
        0 <= i < t <= toks.len(),
        kv_tok(toks[i]),
    ensures
        blank_sep_state(toks.take(t)).2 || blank_sep_state(toks.take(t)).0,
    decreases t - i,
{
    assert(toks.take(t).take(t - 1) =~= toks.take(t - 1));
    assert(toks.take(t)[t - 1] == toks[t - 1]);
    if t == i + 1 {
    } else {
        lemma_content_then_flag(toks, i, t - 1);
    }
}

/// Key content at `i` followed by a blank line at `j` sets the blank flag.
proof fn lemma_pair_sets_blank(toks: Seq<SpecToken>, i: int, j: int)
    requires
        0 <= i < j < toks.len(),
        kv_tok(toks[i]),
        toks[j].token_type == TokenType::BlankLine,
    ensures
        blank_sep_state(toks.take(j + 1)).0,
{
    lemma_content_then_flag(toks, i, j);
    assert(toks.take(j + 1).take(j) =~= toks.take(j));
    assert(toks.take(j + 1)[j] == toks[j]);
}

/// The `found_content` flag comes from some key-content token.
proof fn lemma_flag_gives_content(toks: Seq<SpecToken>)
    requires
        blank_sep_state(toks).2,
    ensures
        exists|i: int| 0 <= i < toks.len() && kv_tok(#[trigger] toks[i]),
    decreases toks.len(),
{
    let n = toks.len() - 1;
    let pre = toks.take(n);
    assert(toks.take(toks.len() as int) =~= toks);
    let t = toks[n];
    if kv_tok(t) {
        assert(kv_tok(toks[n]));
    } else {
        lemma_flag_gives_content(pre);
        let i = choose|i: int| 0 <= i < pre.len() && kv_tok(#[trigger] pre[i]);
        assert(kv_tok(toks[i]));
    }
}

/// The blank flag comes from key content followed by a blank line.
proof fn lemma_blank_gives_pair(toks: Seq<SpecToken>)
    requires
        blank_sep_state(toks).0,
    ensures
        exists|i: int, j: int|
            0 <= i < j < toks.len() && kv_tok(#[trigger] toks[i]) && (
            #[trigger] toks[j]).token_type == TokenType::BlankLine,
    decreases toks.len(),
{
    let n = toks.len() - 1;
    let pre = toks.take(n);
    let st = blank_sep_state(pre);
    let t = toks[n];
    if t.token_type == TokenType::BlankLine && !st.0 {
        lemma_flag_gives_content(pre);
        let i = choose|i: int| 0 <= i < pre.len() && kv_tok(#[trigger] pre[i]);
        assert(kv_tok(toks[i]) && toks[n].token_type == TokenType::BlankLine);
    } else {
        lemma_blank_gives_pair(pre);
        let (i, j) = choose|i: int, j: int|
            0 <= i < j < pre.len() && kv_tok(#[trigger] pre[i]) && (#[trigger] pre[j]).token_type
                == TokenType::BlankLine;
        assert(kv_tok(toks[i]) && toks[j].token_type == TokenType::BlankLine);
    }
}

/// The content-after-blank flag comes from key content, a blank line, and
/// key content again, in that order.
proof fn lemma_sep_gives_triple(toks: Seq<SpecToken>)
    requires
        blank_sep_state(toks).1,
    ensures
        exists|i: int, j: int, k: int|
            0 <= i < j < k < toks.len() && kv_tok(#[trigger] toks[i]) && (
            #[trigger] toks[j]).token_type == TokenType::BlankLine && kv_tok(#[trigger] toks[k]),
    decreases toks.len(),
{
    let n = toks.len() - 1;
    let pre = toks.take(n);
    let st = blank_sep_state(pre);
    let t = toks[n];
    if kv_tok(t) && !st.1 {
        lemma_blank_gives_pair(pre);
        let (i, j) = choose|i: int, j: int|
            0 <= i < j < pre.len() && kv_tok(#[trigger] pre[i]) && (#[trigger] pre[j]).token_type
                == TokenType::BlankLine;
        assert(kv_tok(toks[i]) && toks[j].token_type == TokenType::BlankLine && kv_tok(toks[n]));
    } else {
        lemma_sep_gives_triple(pre);
        let (i, j, k) = choose|i: int, j: int, k: int|
            0 <= i < j < k < pre.len() && kv_tok(#[trigger] pre[i]) && (#[trigger] pre[j]).token_type
                == TokenType::BlankLine && kv_tok(#[trigger] pre[k]);
        assert(kv_tok(toks[i]) && toks[j].token_type == TokenType::BlankLine && kv_tok(toks[k]));
    }
}

/// Law: the object-array mark is exactly positional: a blank line stands
/// strictly between two stretches of key content if and only if some
/// key-content token, then a blank line, then another key-content token occur
/// in that order (bare scalar lines are not key content).
pub proof fn lemma_blank_separator_characterization(toks: Seq<SpecToken>)
    ensures
        spec_has_blank_separators(toks) <==> (exists|i: int, j: int, k: int|
            0 <= i < j < k < toks.len() && kv_tok(#[trigger] toks[i]) && (
            #[trigger] toks[j]).token_type == TokenType::BlankLine && kv_tok(#[trigger] toks[k])),
{
    if spec_has_blank_separators(toks) {
        lemma_sep_gives_triple(toks);
    }
    if exists|i: int, j: int, k: int|
        0 <= i < j < k < toks.len() && kv_tok(#[trigger] toks[i]) && (
        #[trigger] toks[j]).token_type == TokenType::BlankLine && kv_tok(#[trigger] toks[k]) {
        let (i, j, k) = choose|i: int, j: int, k: int|
            0 <= i < j < k < toks.len() && kv_tok(#[trigger] toks[i]) && (
            #[trigger] toks[j]).token_type == TokenType::BlankLine && kv_tok(#[trigger] toks[k]);
        lemma_pair_sets_blank(toks, i, j);
        lemma_blank_sep_persists(toks, j + 1, k);
        // At `k`, key content turns the set blank flag into separation.
        assert(toks.take(k + 1).take(k) =~= toks.take(k));
        assert(toks.take(k + 1)[k] == toks[k]);
        assert(blank_sep_state(toks.take(k + 1)).1);
        lemma_blank_sep_persists(toks, k + 1, toks.len() as int);
        assert(toks.take(toks.len() as int) =~= toks);
        // Separation implies the blank flag as well.
        lemma_blank_sep_persists(toks, j + 1, toks.len() as int);
    }
}

/// Law: a multiline opener's value bypasses type inference: building an
/// object from section tokens inserts the collected block as a text value,
/// whatever the inference setting says.
pub proof fn lemma_multiline_inserts_text(
    toks: Seq<SpecToken>,
    i: int,
    es: Seq<(Seq<char>, SpecValue)>,
    infer: bool,
)
    requires
        0 <= i < toks.len(),
        toks[i].token_type == TokenType::MultilineStart,
        toks[i].key is Some,
    ensures
        ({
            let cm = spec_collect_multiline(toks, i);
            let ni = if cm.1 + 1 > toks.len() {
                toks.len() as int
            } else {
                cm.1 + 1
            };
            let segs = split_char(toks[i].key->0, '.');
            spec_object_entries_at(toks, i, es, infer) == match model_set_map(
                entries_map(es),
                segs,
                SpecValue::Text(cm.0),
            ) {
                Some(_) => spec_object_entries_at(
                    toks,
                    ni,
                    es_set_path(es, entries_map(es), segs, SpecValue::Text(cm.0)),
                    infer,
                ),
                None => None::<Seq<(Seq<char>, SpecValue)>>,
            }
        }),
{
}

/// Law: type inference precedence is boolean over integer over float over
/// text, boolean keywords matched case-insensitively; with inference off,
/// every scalar stays text.
pub proof fn lemma_infer_precedence(s: Seq<char>)
    ensures
        is_true_literal(s) ==> spec_infer(s, true) == SpecValue::Boolean(true),
        is_false_literal(s) ==> spec_infer(s, true) == SpecValue::Boolean(false),
        !is_true_literal(s) && !is_false_literal(s) && is_i64_literal(s) ==> spec_infer(s, true)
            == SpecValue::Integer(i64_value(s) as i64),
        !is_true_literal(s) && !is_false_literal(s) && !is_i64_literal(s) && is_f64_literal(s)
            ==> spec_infer(s, true) == SpecValue::FloatLit(s),
        !is_true_literal(s) && !is_false_literal(s) && !is_i64_literal(s) && !is_f64_literal(s)
            ==> spec_infer(s, true) == SpecValue::Text(s),
        spec_infer(s, false) == SpecValue::Text(s),
{
}

/// Law: multiline-sourced values bypass type inference. In a section whose
/// key content is only multiline blocks (no plain key/value line), the object
/// built is the same whether inference is on or off: multiline text is always
/// stored as text.
pub proof fn lemma_multiline_always_text(
    toks: Seq<SpecToken>,
    i: int,
    es: Seq<(Seq<char>, SpecValue)>,
)
    requires
        forall|j: int| 0 <= j < toks.len() ==> (#[trigger] toks[j]).token_type != TokenType::KeyValue,
    ensures
        spec_object_entries_at(toks, i, es, true) == spec_object_entries_at(toks, i, es, false),
    decreases toks.len() - i,
{
    if 0 <= i < toks.len() {
        lemma_collect_ml_bounds(toks.skip(i + 1));
        let t = toks[i];
        if t.token_type == TokenType::MultilineStart {
            let cm = spec_collect_multiline(toks, i);
            let ni = if cm.1 + 1 > toks.len() {
                toks.len() as int
            } else {
                cm.1 + 1
            };
            if t.key is Some {
                let segs = split_char(t.key->0, '.');
                let v = SpecValue::Text(cm.0);
                match model_set_map(entries_map(es), segs, v) {
                    Some(_) => {
                        lemma_multiline_always_text(toks, ni, es_set_path(es, entries_map(es), segs, v));
                    },
                    None => {},
                }
            } else {
                lemma_multiline_always_text(toks, ni, es);
            }
        } else {
            lemma_multiline_always_text(toks, i + 1, es);
        }
    }
}

/// A copy of an optional string.
fn clone_opt_string(o: &Option<String>) -> (r: Option<String>)
    ensures
        r.deep_view() == o.deep_view(),
{
    match o {
        Some(s) => Some(s.clone()),
        None => None,
    }
}

/// A copy of a token, with the same model.
fn clone_token(t: &Token) -> (r: Token)
    ensures
        r@ == t@,
{
    Token {
        token_type: t.token_type,
        line_number: t.line_number,
        raw_line: t.raw_line.clone(),
        path: clone_opt_string(&t.path),
        is_absolute: match t.is_absolute {
            Some(b) => Some(b),
            None => None,
        },
        key: clone_opt_string(&t.key),
        value: clone_opt_string(&t.value),
        constraint: clone_opt_string(&t.constraint),
        quote_count: match t.quote_count {
            Some(q) => Some(q),
            None => None,
        },
    }
}

/// Copies of the tokens in `[from, to)`.
#[verifier::loop_isolation(false)]
fn copy_tokens(tokens: &Vec<Token>, from: usize, to: usize) -> (r: Vec<Token>)
    requires
        from <= to <= tokens@.len(),
    ensures
        tokens_view(r@) == tokens_view(tokens@).subrange(from as int, to as int),
{
    let mut r: Vec<Token> = Vec::new();
    let mut i = from;
    while i < to
        invariant
            from <= i <= to,
            r@.len() == i - from,
            forall|j: int| 0 <= j < r@.len() ==> (#[trigger] r@[j])@ == tokens@[from + j]@,
        decreases to - i,
    {
        r.push(clone_token(&tokens[i]));
        i = i + 1;
    }
    proof {
        assert(tokens_view(r@) =~= tokens_view(tokens@).subrange(from as int, to as int));
    }
    r
}

/// Parts joined with newlines.
#[verifier::loop_isolation(false)]
fn join_newline(parts: &Vec<String>) -> (r: String)
    ensures
        r@ == join_nl(strs_view(parts@)),
{
    let ghost ps = strs_view(parts@);
    let mut out: Vec<char> = Vec::new();
    let mut i: usize = 0;
    while i < parts.len()
        invariant
            0 <= i <= parts@.len(),
            out@ == join_nl(ps.take(i as int)),
        decreases parts@.len() - i,
    {
        if i > 0 {
            out.push('\n');
        }
        let ghost pre_out = out@;
        let cs = chars_of(parts[i].as_str());
        let mut k: usize = 0;
        while k < cs.len()
            invariant
                0 <= k <= cs@.len(),
                out@ == pre_out + cs@.take(k as int),
            decreases cs@.len() - k,
        {
            out.push(cs[k]);
            k = k + 1;
            proof {
                assert(out@ =~= pre_out + cs@.take(k as int));
            }
        }
        proof {
            assert(cs@.take(cs@.len() as int) =~= cs@);
            assert(ps.take(i + 1).take(i as int) =~= ps.take(i as int));
            assert(ps.take(i + 1)[i as int] == parts@[i as int]@);
            if i == 0 {
                assert(out@ =~= join_nl(ps.take(1)));
            } else {
                assert(out@ =~= join_nl(ps.take(i as int)) + seq!['\n'] + ps[i as int]);
            }
        }
        i = i + 1;
    }
    proof {
        assert(ps.take(parts@.len() as int) =~= ps);
    }
    string_of(&out)
}

/// `spec_has_kv` over one more token.
proof fn lemma_has_kv_step(tv: Seq<SpecToken>, i: int)
    requires
        0 <= i < tv.len(),
    ensures
        spec_has_kv(tv.take(i + 1)) == (spec_has_kv(tv.take(i)) || tv[i].token_type
            == TokenType::KeyValue || tv[i].token_type == TokenType::MultilineStart),
{
    let a = tv.take(i);
    let b = tv.take(i + 1);
    assert(b[i] == tv[i]);
    if spec_has_kv(b) {
        let j = choose|j: int|
            0 <= j < b.len() && ((#[trigger] b[j]).token_type == TokenType::KeyValue
                || b[j].token_type == TokenType::MultilineStart);
        if j < i {
            assert(a[j] == b[j]);
            assert(spec_has_kv(a));
        }
    }
    if spec_has_kv(a) {
        let j = choose|j: int|
            0 <= j < a.len() && ((#[trigger] a[j]).token_type == TokenType::KeyValue
                || a[j].token_type == TokenType::MultilineStart);
        assert(b[j] == a[j]);
        assert(spec_has_kv(b));
    }
    if tv[i].token_type == TokenType::KeyValue || tv[i].token_type == TokenType::MultilineStart {
        assert(spec_has_kv(b));
    }
}

impl Parser {
    /// Whether this parser infers scalar types.
    pub closed spec fn spec_infer_types(self) -> bool {
        self.infer_types
    }

    /// The reserved strict flag.
    pub closed spec fn spec_strict(self) -> bool {
        self.strict
    }

    /// A parser with the given options.
    pub fn new(options: ParseOptions) -> (r: Parser)
        ensures
            r.spec_infer_types() == options.infer_types,
            r.spec_strict() == options.strict,
    {
        Parser { infer_types: options.infer_types, strict: options.strict }
    }

    /// The value a scalar's text denotes under this parser's options.
    fn infer_type(&self, value: &String) -> (r: Value)
        ensures
            r@ == spec_infer(value@, self.spec_infer_types()),
            r.wf(),
    {
        if !self.infer_types {
            return Value::Text(value.clone());
        }
        let vc = chars_of(value.as_str());
        if is_true_lit(&vc) {
            return Value::Boolean(true);
        }
        if is_false_lit(&vc) {
            return Value::Boolean(false);
        }
        match parse_i64(&vc) {
            Some(i) => {
                return Value::Integer(i);
            },
            None => {},
        }
        if is_float_literal(&vc) {
            return Value::FloatLit(value.clone());
        }
        Value::Text(value.clone())
    }

    /// The multiline text opened at token `start_idx`, and the index of the
    /// token that closed it (or the stream's end).
    #[verifier::loop_isolation(false)]
    fn collect_multiline(&self, tokens: &Vec<Token>, start_idx: usize) -> (r: (String, usize))
        requires
            start_idx < tokens@.len(),
        ensures
            ({
                let cm = spec_collect_multiline(tokens_view(tokens@), start_idx as int);
                r.0@ == cm.0 && r.1 as int == cm.1 && start_idx < r.1 <= tokens@.len()
            }),
    {
        let ghost tv = tokens_view(tokens@);
        let n_toks = tokens.len();
        proof {
            assert(start_idx < n_toks);
        }
        let mut parts: Vec<String> = Vec::new();
        match &tokens[start_idx].value {
            Some(v) => {
                if !v.as_str().is_empty() {
                    parts.push(v.clone());
                }
            },
            None => {},
        }
        let ghost first: Seq<Seq<char>> = if tv[start_idx as int].value is Some && (
        tv[start_idx as int].value->0).len() > 0 {
            seq![tv[start_idx as int].value->0]
        } else {
            Seq::<Seq<char>>::empty()
        };
        proof {
            assert(strs_view(parts@) =~= first);
        }
        let ghost full = collect_ml(tv.skip(start_idx + 1));
        proof {
            lemma_collect_ml_bounds(tv.skip(start_idx + 1));
        }
        let mut i: usize = start_idx + 1;
        while i < tokens.len()
            invariant
                start_idx + 1 <= i <= tv.len(),
                first + full.0 =~= strs_view(parts@) + collect_ml(tv.skip(i as int)).0,
                full.1 == (i - start_idx - 1) + collect_ml(tv.skip(i as int)).1,
            decreases tv.len() - i,
        {
            proof {
                assert(tv.skip(i as int)[0] == tv[i as int]);
                assert(tv.skip(i as int).skip(1) =~= tv.skip(i as int + 1));
            }
            let tt = tokens[i].token_type;
            if tt == TokenType::MultilineContent {
                match &tokens[i].value {
                    Some(v) => {
                        parts.push(v.clone());
                        proof {
                            assert(strs_view(parts@) =~= strs_view(parts@.take(parts@.len() - 1))
                                + seq![v@]);
                        }
                    },
                    None => {},
                }
                i = i + 1;
            } else if tt == TokenType::MultilineEnd {
                match &tokens[i].value {
                    Some(v) => {
                        if !v.as_str().is_empty() {
                            parts.push(v.clone());
                            proof {
                                assert(strs_view(parts@) =~= strs_view(
                                    parts@.take(parts@.len() - 1),
                                ) + seq![v@]);
                            }
                        }
                    },
                    None => {},
                }
                proof {
                    assert(first + full.0 =~= strs_view(parts@));
                }
                return (join_newline(&parts), i);
            } else {
                i = i + 1;
            }
        }
        proof {
            assert(tv.skip(tv.len() as int) =~= Seq::<SpecToken>::empty());
            assert(first + full.0 =~= strs_view(parts@));
        }
        (join_newline(&parts), tokens.len())
    }

    /// Whether a blank line stands strictly between two stretches of key
    /// content.
    #[verifier::loop_isolation(false)]
    fn has_blank_line_separators(&self, tokens: &Vec<Token>) -> (r: bool)
        ensures
            r == spec_has_blank_separators(tokens_view(tokens@)),
    {
        let ghost tv = tokens_view(tokens@);
        let mut has_blank = false;
        let mut has_content_after_blank = false;
        let mut found_content = false;
        let mut i: usize = 0;
        proof {
            assert(tv.take(0) =~= Seq::<SpecToken>::empty());
        }
        while i < tokens.len()
            invariant
                0 <= i <= tv.len(),
                blank_sep_state(tv.take(i as int)) == (has_blank, has_content_after_blank,
                found_content),
            decreases tv.len() - i,
        {
            proof {
                assert(tv.take(i as int + 1).take(i as int) =~= tv.take(i as int));
                assert(tv.take(i as int + 1)[i as int] == tv[i as int]);
            }
            let tt = tokens[i].token_type;
            if tt == TokenType::BlankLine {
                if found_content {
                    has_blank = true;
                    found_content = false;
                }
            } else if tt == TokenType::KeyValue || tt == TokenType::MultilineStart {
                if has_blank {
                    has_content_after_blank = true;
                }
                found_content = true;
            }
            i = i + 1;
        }
        proof {
            assert(tv.take(tv.len() as int) =~= tv);
        }
        has_blank && has_content_after_blank
    }

    /// Build a plain object from a section's tokens, nested keys descending.
    #[verifier::loop_isolation(false)]
    fn parse_object(&self, tokens: &Vec<Token>) -> (r: Result<Vec<(String, Value)>, AdfError>)
        ensures
            match r {
                Ok(out) => obj_wf(out@) && Some(entries_view(out@)) == spec_object_entries(
                    tokens_view(tokens@),
                    self.spec_infer_types(),
                ),
                Err(e) => spec_object_entries(tokens_view(tokens@), self.spec_infer_types())
                    is None && (e is ValidationError),
            },
    {
        let ghost tv = tokens_view(tokens@);
        let ghost infer = self.spec_infer_types();
        let ghost full = spec_object_entries(tv, infer);
        let mut obj: Vec<(String, Value)> = Vec::new();
        let mut i: usize = 0;
        proof {
            assert(obj_model(obj@) =~= Map::<Seq<char>, SpecValue>::empty());
            assert(entries_view(obj@) =~= Seq::<(Seq<char>, SpecValue)>::empty());
        }
        while i < tokens.len()
            invariant
                0 <= i <= tv.len(),
                obj_wf(obj@),
                spec_object_entries_at(tv, i as int, entries_view(obj@), infer) == full,
            decreases tv.len() - i,
        {
            proof {
                lemma_entries_map_pairs(obj@);
            }
            let tt = tokens[i].token_type;
            if tt == TokenType::KeyValue {
                match (&tokens[i].key, &tokens[i].value) {
                    (Some(k), Some(v)) => {
                        let val = self.infer_type(v);
                        match set_nested_value(&obj, k, val) {
                            Ok(out) => {
                                obj = out;
                            },
                            Err(e) => {
                                return Err(e);
                            },
                        }
                    },
                    _ => {},
                }
                i = i + 1;
            } else if tt == TokenType::MultilineStart {
                let cm = self.collect_multiline(tokens, i);
                let text = cm.0;
                let end_i = cm.1;
                match &tokens[i].key {
                    Some(k0) => {
                        let k = k0.clone();
                        match set_nested_value(&obj, &k, Value::Text(text)) {
                            Ok(out) => {
                                obj = out;
                            },
                            Err(e) => {
                                return Err(e);
                            },
                        }
                    },
                    None => {},
                }
                let ni = if end_i >= tokens.len() {
                    tokens.len()
                } else {
                    end_i + 1
                };
                i = ni;
            } else {
                i = i + 1;
            }
        }
        Ok(obj)
    }

    /// Build an object array: blank lines flush the current object, keys
    /// insert directly.
    #[verifier::loop_isolation(false)]
    fn parse_object_array(&self, tokens: &Vec<Token>) -> (r: Result<Vec<Value>, AdfError>)
        ensures
            r is Ok,
            ({
                let out = r->Ok_0;
                arr_model(out@) == spec_object_array(tokens_view(tokens@), self.spec_infer_types())
                    && (forall|j: int| 0 <= j < out@.len() ==> (#[trigger] out@[j]).wf())
            }),
    {
        let ghost tv = tokens_view(tokens@);
        let ghost infer = self.spec_infer_types();
        let ghost full = spec_object_array(tv, infer);
        let mut objects: Vec<Value> = Vec::new();
        let mut current: Vec<(String, Value)> = Vec::new();
        let mut i: usize = 0;
        proof {
            assert(obj_model(current@) =~= Map::<Seq<char>, SpecValue>::empty());
            assert(arr_model(objects@) =~= Seq::<SpecValue>::empty());
        }
        while i < tokens.len()
            invariant
                0 <= i <= tv.len(),
                obj_wf(current@),
                forall|j: int| 0 <= j < objects@.len() ==> (#[trigger] objects@[j]).wf(),
                spec_object_array_at(
                    tv,
                    i as int,
                    obj_model(current@),
                    current@.len() > 0,
                    arr_model(objects@),
                    infer,
                ) == full,
            decreases tv.len() - i,
        {
            let tt = tokens[i].token_type;
            if tt == TokenType::BlankLine {
                if current.len() > 0 {
                    let ghost pre = objects@;
                    let flushed_obj = Value::Object(current);
                    proof {
                        crate::value::lemma_arr_model_push(objects@, flushed_obj);
                    }
                    objects.push(flushed_obj);
                    current = Vec::new();
                    proof {
                        assert(obj_model(current@) =~= Map::<Seq<char>, SpecValue>::empty());
                    }
                }
                i = i + 1;
            } else if tt == TokenType::KeyValue {
                match (&tokens[i].key, &tokens[i].value) {
                    (Some(k), Some(v)) => {
                        let val = self.infer_type(v);
                        current = object_set(&current, k, val);
                        proof {
                            crate::value::lemma_obj_model_contains(current@, k@);
                        }
                    },
                    _ => {},
                }
                i = i + 1;
            } else if tt == TokenType::MultilineStart {
                let cm = self.collect_multiline(tokens, i);
                let text = cm.0;
                let end_i = cm.1;
                match &tokens[i].key {
                    Some(k0) => {
                        let k = k0.clone();
                        current = object_set(&current, &k, Value::Text(text));
                        proof {
                            crate::value::lemma_obj_model_contains(current@, k@);
                        }
                    },
                    None => {},
                }
                let ni = if end_i >= tokens.len() {
                    tokens.len()
                } else {
                    end_i + 1
                };
                i = ni;
            } else {
                i = i + 1;
            }
        }
        if current.len() > 0 {
            let flushed_obj = Value::Object(current);
            proof {
                crate::value::lemma_arr_model_push(objects@, flushed_obj);
            }
            objects.push(flushed_obj);
        }
        Ok(objects)
    }
}

/// The flushed sections of a prefix stay a prefix of the whole stream's
/// sections.
proof fn lemma_sections_prefix(toks: Seq<SpecToken>, i: int)
    requires
        0 <= i <= toks.len(),
    ensures
        exists|rest: Seq<SpecSection>|
            spec_sections(toks) =~= #[trigger] (sections_state(toks.take(i)).0 + rest),
    decreases toks.len() - i,
{
    if i == toks.len() {
        assert(toks.take(i) =~= toks);
        let st = sections_state(toks);
        assert(spec_sections(toks) =~= st.0 + seq![st.1]);
    } else {
        lemma_sections_prefix(toks, i + 1);
        let rest1 = choose|rest: Seq<SpecSection>|
            spec_sections(toks) =~= #[trigger] (sections_state(toks.take(i + 1)).0 + rest);
        assert(toks.take(i + 1).take(i) =~= toks.take(i));
        assert(toks.take(i + 1)[i] == toks[i]);
        let st = sections_state(toks.take(i));
        let t = toks[i];
        if t.token_type == TokenType::AbsoluteHeader || t.token_type == TokenType::RelativeHeader {
            assert(sections_state(toks.take(i + 1)).0 =~= st.0.push(st.1));
            assert(st.0.push(st.1) + rest1 =~= st.0 + (seq![st.1] + rest1));
            assert(spec_sections(toks) =~= st.0 + (seq![st.1] + rest1));
        } else {
            assert(sections_state(toks.take(i + 1)).0 == st.0);
        }
    }
}

impl Parser {
    /// Classify one section and apply it to the document.
    #[verifier::loop_isolation(false)]
    fn process_section(
        &self,
        tokens: &Vec<Token>,
        section_path: &String,
        is_absolute: bool,
        document: &mut Document,
    ) -> (r: Result<(), AdfError>)
        requires
            old(document).wf(),
        ensures
            final(document).wf(),
            ({
                let sec = (SpecSection {
                    path: section_path@,
                    absolute: is_absolute,
                    toks: tokens_view(tokens@),
                });
                match r {
                    Ok(_) => spec_apply_section(
                        doc_model(*old(document)),
                        sec,
                        self.spec_infer_types(),
                        Some(doc_model(*final(document))),
                    ),
                    Err(e) => spec_apply_section(
                        doc_model(*old(document)),
                        sec,
                        self.spec_infer_types(),
                        None,
                    ) && (e is ValidationError),
                }
            }),
    {
        let ghost tv = tokens_view(tokens@);
        let ghost infer = self.spec_infer_types();
        let ghost d0 = doc_model(*document);
        let ghost sec = (SpecSection { path: section_path@, absolute: is_absolute, toks: tv });
        if tokens.len() == 0 {
            return Ok(());
        }
        // Classify: is anything here, and does any line carry a key?
        let mut has_kv = false;
        let mut blank_only = true;
        let mut i: usize = 0;
        proof {
            assert(tv.take(0) =~= Seq::<SpecToken>::empty());
        }
        while i < tokens.len()
            invariant
                0 <= i <= tv.len(),
                has_kv == spec_has_kv(tv.take(i as int)),
                blank_only == all_blank(tv.take(i as int)),
            decreases tv.len() - i,
        {
            proof {
                lemma_has_kv_step(tv, i as int);
                assert(tv.take(i as int + 1).take(i as int) =~= tv.take(i as int));
                assert(tv.take(i as int + 1)[i as int] == tv[i as int]);
            }
            let ghost pre_blank = blank_only;
            let tt = tokens[i].token_type;
            if tt != TokenType::BlankLine {
                blank_only = false;
            }
            if tt == TokenType::KeyValue || tt == TokenType::MultilineStart {
                has_kv = true;
            }
            proof {
                let b = tv.take(i as int + 1);
                if blank_only {
                    assert forall|j: int| 0 <= j < b.len() implies (#[trigger] b[j]).token_type
                        == TokenType::BlankLine by {
                        if j < i {
                            assert(b[j] == tv.take(i as int)[j]);
                        }
                    }
                } else {
                    if pre_blank {
                        assert(b[i as int].token_type != TokenType::BlankLine);
                    } else {
                        let j = choose|j: int|
                            0 <= j < i && (#[trigger] tv.take(i as int)[j]).token_type
                                != TokenType::BlankLine;
                        assert(b[j] == tv.take(i as int)[j]);
                        assert(!all_blank(b));
                    }
                }
            }
            i = i + 1;
        }
        proof {
            assert(tv.take(tv.len() as int) =~= tv);
        }
        if blank_only {
            return Ok(());
        }
        if !has_kv {
            // Scalar array.
            let mut values: Vec<Value> = Vec::new();
            let mut j: usize = 0;
            proof {
                assert(arr_model(values@) =~= Seq::<SpecValue>::empty());
                assert(tv.take(0) =~= Seq::<SpecToken>::empty());
            }
            while j < tokens.len()
                invariant
                    0 <= j <= tv.len(),
                    arr_model(values@) == spec_scalar_values(tv.take(j as int), infer),
                    forall|k: int| 0 <= k < values@.len() ==> (#[trigger] values@[k]).wf(),
                decreases tv.len() - j,
            {
                proof {
                    assert(tv.take(j as int + 1).take(j as int) =~= tv.take(j as int));
                    assert(tv.take(j as int + 1)[j as int] == tv[j as int]);
                }
                let tt = tokens[j].token_type;
                if tt != TokenType::BlankLine {
                    match &tokens[j].value {
                        Some(v) => {
                            let nv = self.infer_type(v);
                            proof {
                                crate::value::lemma_arr_model_push(values@, nv);
                            }
                            values.push(nv);
                        },
                        None => {},
                    }
                }
                j = j + 1;
            }
            proof {
                assert(tv.take(tv.len() as int) =~= tv);
            }
            let arr = Value::Array(values);
            self.store_section_value(tokens, section_path, is_absolute, document, arr)
        } else if self.has_blank_line_separators(tokens) {
            let objects = match self.parse_object_array(tokens) {
                Ok(o) => o,
                Err(e) => {
                    proof {
                        assert(false);
                    }
                    return Err(e);
                },
            };
            let arr = Value::Array(objects);
            self.store_section_value(tokens, section_path, is_absolute, document, arr)
        } else {
            let obj = match self.parse_object(tokens) {
                Ok(o) => o,
                Err(e) => {
                    return Err(e);
                },
            };
            if is_absolute {
                let ghost entries = entries_view(obj@);
                let ghost full_fold = fold_merge_entries(d0.root, section_path@, entries);
                let mut idx: usize = 0;
                proof {
                    assert(entries.skip(0) =~= entries);
                }
                while idx < obj.len()
                    invariant
                        0 <= idx <= obj@.len(),
                        document.wf(),
                        doc_model(*document).rel == d0.rel,
                        full_fold == fold_merge_entries(
                            doc_model(*document).root,
                            section_path@,
                            entries.skip(idx as int),
                        ),
                    decreases obj@.len() - idx,
                {
                    proof {
                        assert(entries.skip(idx as int)[0] == entries[idx as int]);
                        assert(entries.skip(idx as int).skip(1) =~= entries.skip(idx as int + 1));
                        assert(obj@[idx as int].1.wf());
                    }
                    let key = &obj[idx].0;
                    let val = obj[idx].1.clone();
                    let full_path: String = if section_path.as_str().is_empty() {
                        key.clone()
                    } else {
                        let mut s = section_path.clone();
                        s.append(".");
                        s.append(key.as_str());
                        proof {
                            reveal_strlit(".");
                            assert("."@ =~= seq!['.']);
                        }
                        s
                    };
                    proof {
                        assert(full_path@ == full_key_path(section_path@, key@));
                    }
                    match document.merge_at_path(full_path.as_str(), val) {
                        Ok(_) => {},
                        Err(e) => {
                            proof {
                                assert(fold_merge_entries(
                                    doc_model(*document).root,
                                    section_path@,
                                    entries.skip(idx as int),
                                ) is None);
                                assert(full_fold is None);
                                assert(spec_apply_section(d0, sec, infer, None));
                            }
                            return Err(e);
                        },
                    }
                    idx = idx + 1;
                }
                proof {
                    assert(entries.skip(entries.len() as int) =~= Seq::<
                        (Seq<char>, SpecValue),
                    >::empty());
                    assert(full_fold == Some(doc_model(*document).root));
                    assert(doc_model(*document) =~= (SpecDoc {
                        root: doc_model(*document).root,
                        rel: d0.rel,
                    }));
                    assert(spec_apply_section(d0, sec, infer, Some(doc_model(*document))));
                }
                Ok(())
            } else {
                proof {
                    lemma_entries_map_pairs(obj@);
                }
                let v = Value::Object(obj);
                match document.add_relative_section(section_path.as_str(), v) {
                    Ok(_) => {
                        proof {
                            assert(doc_model(*document) =~= (SpecDoc {
                                root: d0.root,
                                rel: doc_model(*document).rel,
                            }));
                        }
                        Ok(())
                    },
                    Err(e) => Err(e),
                }
            }
        }
    }

    /// Store a section's array value at its path: into the root tree for an
    /// absolute section, into the relative tree otherwise.
    fn store_section_value(
        &self,
        tokens: &Vec<Token>,
        section_path: &String,
        is_absolute: bool,
        document: &mut Document,
        arr: Value,
    ) -> (r: Result<(), AdfError>)
        requires
            old(document).wf(),
            arr.wf(),
        ensures
            final(document).wf(),
            match r {
                Ok(_) => if is_absolute {
                    store_abs(
                        doc_model(*old(document)),
                        section_path@,
                        arr@,
                        Some(doc_model(*final(document))),
                    )
                } else {
                    store_rel(
                        doc_model(*old(document)),
                        section_path@,
                        arr@,
                        Some(doc_model(*final(document))),
                    )
                },
                Err(e) => (e is ValidationError) && (if is_absolute {
                    store_abs(doc_model(*old(document)), section_path@, arr@, None)
                } else {
                    store_rel(doc_model(*old(document)), section_path@, arr@, None)
                }),
            },
    {
        let ghost d0 = doc_model(*old(document));
        if is_absolute {
            match document.set(section_path.as_str(), arr) {
                Ok(_) => {
                    proof {
                        assert(doc_model(*document) =~= (SpecDoc {
                            root: doc_model(*document).root,
                            rel: d0.rel,
                        }));
                    }
                    Ok(())
                },
                Err(e) => Err(e),
            }
        } else {
            match document.add_relative_section(section_path.as_str(), arr) {
                Ok(_) => {
                    proof {
                        assert(doc_model(*document) =~= (SpecDoc {
                            root: d0.root,
                            rel: doc_model(*document).rel,
                        }));
                    }
                    Ok(())
                },
                Err(e) => Err(e),
            }
        }
    }
}

impl Parser {
    /// Walk the token stream, closing a section at each header and applying
    /// it; the final section runs to the end of input. An error aborts the
    /// remaining sections.
    #[verifier::loop_isolation(false)]
    fn parse_tokens(&self, tokens: &Vec<Token>, document: &mut Document) -> (r: Result<
        (),
        AdfError,
    >)
        requires
            old(document).wf(),
        ensures
            final(document).wf(),
            ({
                let secs = spec_sections(tokens_view(tokens@));
                match r {
                    Ok(_) => spec_apply_sections(
                        doc_model(*old(document)),
                        secs,
                        self.spec_infer_types(),
                        Some(doc_model(*final(document))),
                    ),
                    Err(e) => spec_apply_sections(
                        doc_model(*old(document)),
                        secs,
                        self.spec_infer_types(),
                        None,
                    ) && (e is ValidationError),
                }
            }),
    {
        let ghost tv = tokens_view(tokens@);
        let ghost infer = self.spec_infer_types();
        let ghost d0 = doc_model(*document);
        let mut i: usize = 0;
        let mut current_section_path: String = String::new();
        let mut current_is_absolute: bool = true;
        let mut section_start: usize = 0;
        proof {
            assert(tv.take(0) =~= Seq::<SpecToken>::empty());
            assert(spec_apply_sections(d0, sections_state(tv.take(0)).0, infer, Some(d0)));
            assert(sections_state(tv.take(0)).1 =~= (SpecSection {
                path: current_section_path@,
                absolute: current_is_absolute,
                toks: tv.subrange(0, 0),
            }));
        }
        while i < tokens.len()
            invariant
                0 <= section_start <= i <= tv.len(),
                document.wf(),
                sections_state(tv.take(i as int)).1 == (SpecSection {
                    path: current_section_path@,
                    absolute: current_is_absolute,
                    toks: tv.subrange(section_start as int, i as int),
                }),
                spec_apply_sections(
                    d0,
                    sections_state(tv.take(i as int)).0,
                    infer,
                    Some(doc_model(*document)),
                ),
            decreases tv.len() - i,
        {
            let ghost cursec = sections_state(tv.take(i as int)).1;
            proof {
                assert(tv.take(i as int + 1).take(i as int) =~= tv.take(i as int));
                assert(tv.take(i as int + 1)[i as int] == tv[i as int]);
            }
            let tt = tokens[i].token_type;
            if tt == TokenType::AbsoluteHeader || tt == TokenType::RelativeHeader {
                let ghost flushed = sections_state(tv.take(i as int)).0;
                let ghost dmid = doc_model(*document);
                if i > section_start {
                    let sec_toks = copy_tokens(tokens, section_start, i);
                    match self.process_section(
                        &sec_toks,
                        &current_section_path,
                        current_is_absolute,
                        document,
                    ) {
                        Ok(_) => {
                            proof {
                                assert(tokens_view(sec_toks@) == cursec.toks);
                                assert((SpecSection {
                                    path: current_section_path@,
                                    absolute: current_is_absolute,
                                    toks: tokens_view(sec_toks@),
                                }) =~= cursec);
                                lemma_apply_snoc(
                                    d0,
                                    flushed,
                                    dmid,
                                    cursec,
                                    infer,
                                    Some(doc_model(*document)),
                                );
                            }
                        },
                        Err(e) => {
                            proof {
                                assert((SpecSection {
                                    path: current_section_path@,
                                    absolute: current_is_absolute,
                                    toks: tokens_view(sec_toks@),
                                }) =~= cursec);
                                lemma_apply_snoc(d0, flushed, dmid, cursec, infer, None);
                                assert(sections_state(tv.take(i as int + 1)).0 =~= flushed.push(
                                    cursec,
                                ));
                                lemma_sections_prefix(tv, i as int + 1);
                                let rest = choose|rest: Seq<SpecSection>|
                                    spec_sections(tv) =~= #[trigger] (sections_state(
                                        tv.take(i as int + 1),
                                    ).0 + rest);
                                lemma_apply_none_extend(d0, flushed.push(cursec), rest, infer);
                                assert(spec_sections(tv) =~= flushed.push(cursec) + rest);
                            }
                            return Err(e);
                        },
                    }
                } else {
                    proof {
                        assert(cursec.toks =~= Seq::<SpecToken>::empty());
                        assert(spec_apply_section(dmid, cursec, infer, Some(dmid)));
                        lemma_apply_snoc(d0, flushed, dmid, cursec, infer, Some(dmid));
                    }
                }
                current_section_path = match &tokens[i].path {
                    Some(p) => p.clone(),
                    None => String::new(),
                };
                current_is_absolute = match &tokens[i].is_absolute {
                    Some(b) => *b,
                    None => false,
                };
                section_start = i + 1;
                proof {
                    assert(sections_state(tv.take(i as int + 1)).0 =~= flushed.push(cursec));
                    assert(sections_state(tv.take(i as int + 1)).1 =~= (SpecSection {
                        path: current_section_path@,
                        absolute: current_is_absolute,
                        toks: tv.subrange(i as int + 1, i as int + 1),
                    }));
                }
            } else {
                proof {
                    assert(tv.subrange(section_start as int, i as int + 1) =~= tv.subrange(
                        section_start as int,
                        i as int,
                    ).push(tv[i as int]));
                    assert(sections_state(tv.take(i as int + 1)).1 =~= (SpecSection {
                        path: current_section_path@,
                        absolute: current_is_absolute,
                        toks: tv.subrange(section_start as int, i as int + 1),
                    }));
                }
            }
            i = i + 1;
        }
        proof {
            assert(tv.take(tv.len() as int) =~= tv);
        }
        let ghost flushed = sections_state(tv).0;
        let ghost cursec = sections_state(tv).1;
        let ghost dmid = doc_model(*document);
        if section_start < tokens.len() {
            let sec_toks = copy_tokens(tokens, section_start, tokens.len());
            match self.process_section(
                &sec_toks,
                &current_section_path,
                current_is_absolute,
                document,
            ) {
                Ok(_) => {
                    proof {
                        assert((SpecSection {
                            path: current_section_path@,
                            absolute: current_is_absolute,
                            toks: tokens_view(sec_toks@),
                        }) =~= cursec);
                        lemma_apply_snoc(d0, flushed, dmid, cursec, infer, Some(
                            doc_model(*document),
                        ));
                    }
                    Ok(())
                },
                Err(e) => {
                    proof {
                        assert((SpecSection {
                            path: current_section_path@,
                            absolute: current_is_absolute,
                            toks: tokens_view(sec_toks@),
                        }) =~= cursec);
                        lemma_apply_snoc(d0, flushed, dmid, cursec, infer, None);
                    }
                    Err(e)
                },
            }
        } else {
            proof {
                assert(cursec.toks =~= Seq::<SpecToken>::empty());
                assert(spec_apply_section(dmid, cursec, infer, Some(dmid)));
                lemma_apply_snoc(d0, flushed, dmid, cursec, infer, Some(dmid));
            }
            Ok(())
        }
    }

    /// Parse source text into a document.
    pub fn parse(&self, text: &str) -> (r: Result<Document, AdfError>)
        ensures
            match r {
                Ok(d) => d.wf() && spec_parse(text@, self.spec_infer_types(), Some(doc_model(d))),
                Err(e) => spec_parse(text@, self.spec_infer_types(), None) && (e
                    is ValidationError),
            },
    {
        let mut lexer = Lexer::new();
        let tokens = match lexer.tokenize(text) {
            Ok(t) => t,
            Err(e) => {
                proof {
                    assert(false);
                }
                return Err(e);
            },
        };
        let mut document = Document::new();
        proof {
            assert(doc_model(document) =~= (SpecDoc { root: Map::empty(), rel: Map::empty() }));
        }
        match self.parse_tokens(&tokens, &mut document) {
            Ok(_) => Ok(document),
            Err(e) => Err(e),
        }
    }
}

/// Parse ADF text with default options.
pub fn parse(text: &str) -> (r: Result<Document, AdfError>)
    ensures
        match r {
            Ok(d) => d.wf() && spec_parse(text@, true, Some(doc_model(d))),
            Err(e) => spec_parse(text@, true, None) && (e is ValidationError),
        },
{
    let parser = Parser::new(ParseOptions::default());
    parser.parse(text)
}

/// Parse ADF text with the given options.
pub fn parse_with_options(text: &str, options: ParseOptions) -> (r: Result<Document, AdfError>)
    ensures
        match r {
            Ok(d) => d.wf() && spec_parse(text@, options.infer_types, Some(doc_model(d))),
            Err(e) => spec_parse(text@, options.infer_types, None) && (e is ValidationError),
        },
{
    let parser = Parser::new(options);
    parser.parse(text)
}

/// Insert a value under a key in an object's field list, a key with dots
/// descending into nested objects.
fn set_nested_value(obj: &Vec<(String, Value)>, key: &String, value: Value) -> (r: Result<
    Vec<(String, Value)>,
    AdfError,
>)
    requires
        obj_wf(obj@),
        value.wf(),
    ensures
        match r {
            Ok(out) => obj_wf(out@) && Some(obj_model(out@)) == model_set_map(
                obj_model(obj@),
                split_char(key@, '.'),
                value@,
            ) && entries_view(out@) == es_set_path(
                entries_view(obj@),
                obj_model(obj@),
                split_char(key@, '.'),
                value@,
            ),
            Err(e) => {
                &&& model_set_map(obj_model(obj@), split_char(key@, '.'), value@) is None
                &&& ({
                    let segs = split_char(key@, '.');
                    let seg = segs[model_set_conflict(obj_model(obj@), segs)];
                    &&& e matches AdfError::ValidationError { path: ep, message: em }
                    &&& ep@ == seg
                    &&& em@ == "Cannot set nested value: '"@ + seg + "' is not an object"@
                })
            },
        },
{
    let kv = chars_of(key.as_str());
    let parts_c = crate::chars::split_on(&kv, '.');
    let mut parts: Vec<String> = Vec::new();
    let mut i: usize = 0;
    while i < parts_c.len()
        invariant
            0 <= i <= parts_c@.len(),
            parts@.len() == i,
            forall|j: int| 0 <= j < i ==> (#[trigger] parts@[j])@ == parts_c@[j]@,
            crate::chars::vecs_view(parts_c@) == split_char(key@, '.'),
        decreases parts_c@.len() - i,
    {
        parts.push(string_of(&parts_c[i]));
        i = i + 1;
    }
    proof {
        assert(strs_view(parts@) =~= split_char(key@, '.'));
        assert(split_char(key@, '.').len() >= 1);
    }
    match obj_set_path(obj, &parts, 0, value) {
        Ok(out) => {
            proof {
                assert(strs_view(parts@).skip(0) =~= strs_view(parts@));
            }
            Ok(out)
        },
        Err(e) => {
            proof {
                assert(strs_view(parts@).skip(0) =~= strs_view(parts@));
                assert(parts@[e as int]@ == split_char(key@, '.')[e as int]);
            }
            let seg = parts[e].clone();
            let msg = String::from_str("Cannot set nested value: '").concat(
                parts[e].as_str(),
            ).concat("' is not an object");
            Err(AdfError::validation_error(seg, msg))
        },
    }
}

} // verus!
