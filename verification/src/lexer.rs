//! The lexer: source text to a flat sequence of typed tokens, one per line,
//! with cross-line state only for quoted multiline blocks. Every step is
//! specified as a pure function over sequences of characters.

use vstd::prelude::*;

use crate::chars::chars_of;
use crate::chars::find;
use crate::chars::find_char;
use crate::chars::last_index;
use crate::chars::lemma_find_char_props;
use crate::chars::lemma_last_index_props;
use crate::chars::rfind;
use crate::chars::spec_lines;
use crate::chars::split_lines;
use crate::chars::split_on;
use crate::chars::split_char;
use crate::chars::string_of;
use crate::chars::sub_chars;
use crate::chars::trim;
use crate::chars::trim_back;
use crate::chars::trim_end;
use crate::chars::trim_front;
use crate::chars::trim_spec;
use crate::chars::trim_start;
use crate::chars::unicode_alnum;
use crate::chars::vecs_view;
use crate::error::AdfError;

verus! {

/// The kind of one lexical unit.
#[derive(Clone, Copy, Debug, PartialEq, Eq, Structural)]
pub enum TokenType {
    BlankLine,
    AbsoluteHeader,
    RelativeHeader,
    KeyValue,
    ScalarValue,
    MultilineStart,
    MultilineContent,
    MultilineEnd,
}

/// One lexical unit: its kind, source position, raw text, and kind-specific
/// fields.
pub struct Token {
    pub token_type: TokenType,
    pub line_number: usize,
    pub raw_line: String,
    pub path: Option<String>,
    pub is_absolute: Option<bool>,
    pub key: Option<String>,
    pub value: Option<String>,
    pub constraint: Option<String>,
    pub quote_count: Option<usize>,
}

/// Mathematical model of a token.
pub struct SpecToken {
    pub token_type: TokenType,
    pub line_number: int,
    pub raw_line: Seq<char>,
    pub path: Option<Seq<char>>,
    pub is_absolute: Option<bool>,
    pub key: Option<Seq<char>>,
    pub value: Option<Seq<char>>,
    pub constraint: Option<Seq<char>>,
    pub quote_count: Option<int>,
}

impl View for Token {
    type V = SpecToken;

    open spec fn view(&self) -> SpecToken {
        SpecToken {
            token_type: self.token_type,
            line_number: self.line_number as int,
            raw_line: self.raw_line@,
            path: self.path.deep_view(),
            is_absolute: self.is_absolute,
            key: self.key.deep_view(),
            value: self.value.deep_view(),
            constraint: self.constraint.deep_view(),
            quote_count: match self.quote_count {
                Some(q) => Some(q as int),
                None => None,
            },
        }
    }
}

/// A token of the given kind with no kind-specific fields set.
pub open spec fn spec_token0(tt: TokenType, n: int, line: Seq<char>) -> SpecToken {
    SpecToken {
        token_type: tt,
        line_number: n,
        raw_line: line,
        path: None,
        is_absolute: None,
        key: None,
        value: None,
        constraint: None,
        quote_count: None,
    }
}

impl Token {
    /// A token of the given kind with no kind-specific fields set.
    fn new(token_type: TokenType, line_number: usize, raw_line: String) -> (r: Token)
        ensures
            r@ == spec_token0(token_type, line_number as int, raw_line@),
    {
        Token {
            token_type,
            line_number,
            raw_line,
            path: None,
            is_absolute: None,
            key: None,
            value: None,
            constraint: None,
            quote_count: None,
        }
    }
}

/// Length of the run of double quotes at the start of `s`.
pub open spec fn lead_quotes(s: Seq<char>) -> int
    decreases s.len(),
{
    if s.len() > 0 && s[0] == '"' {
        1 + lead_quotes(s.skip(1))
    } else {
        0
    }
}

/// Length of the run of double quotes at the end of `s`.
pub open spec fn tail_quotes(s: Seq<char>) -> int
    decreases s.len(),
{
    if s.len() > 0 && s[s.len() - 1] == '"' {
        1 + tail_quotes(s.take(s.len() - 1))
    } else {
        0
    }
}

proof fn lemma_lead_quotes_at(s: Seq<char>, i: int)
    requires
        0 <= i <= s.len(),
        forall|j: int| 0 <= j < i ==> s[j] == '"',
        i < s.len() ==> s[i] != '"',
    ensures
        lead_quotes(s) == i,
    decreases i,
{
    if i > 0 {
        lemma_lead_quotes_at(s.skip(1), i - 1);
    } else {
        if s.len() > 0 {
            assert(s[0] != '"');
        }
    }
}

proof fn lemma_tail_quotes_at(s: Seq<char>, i: int)
    requires
        0 <= i <= s.len(),
        forall|j: int| i <= j < s.len() ==> s[j] == '"',
        i > 0 ==> s[i - 1] != '"',
    ensures
        tail_quotes(s) == s.len() - i,
    decreases s.len() - i,
{
    if i < s.len() {
        assert(s.take(s.len() - 1).take(i) =~= s.take(i));
        lemma_tail_quotes_at(s.take(s.len() - 1), i);
    }
}

/// Length of the run of double quotes at the start of `v`.
fn count_leading_quotes(v: &Vec<char>) -> (r: usize)
    ensures
        r as int == lead_quotes(v@),
        r <= v@.len(),
{
    let mut i: usize = 0;
    while i < v.len() && v[i] == '"'
        invariant
            0 <= i <= v@.len(),
            forall|j: int| 0 <= j < i ==> v@[j] == '"',
        decreases v@.len() - i,
    {
        i = i + 1;
    }
    proof {
        lemma_lead_quotes_at(v@, i as int);
    }
    i
}

/// Length of the run of double quotes at the end of `v`.
fn count_trailing_quotes(v: &Vec<char>) -> (r: usize)
    ensures
        r as int == tail_quotes(v@),
        r <= v@.len(),
{
    let mut j: usize = v.len();
    while j > 0 && v[j - 1] == '"'
        invariant
            0 <= j <= v@.len(),
            forall|k: int| j <= k < v@.len() ==> v@[k] == '"',
        decreases j,
    {
        j = j - 1;
    }
    proof {
        lemma_tail_quotes_at(v@, j as int);
    }
    v.len() - j
}

/// Whether `v` ends with a run of exactly `count` double quotes.
fn ends_with_quotes(v: &Vec<char>, count: usize) -> (r: bool)
    ensures
        r == (tail_quotes(v@) == count as int),
{
    count_trailing_quotes(v) == count
}

/// The constraint inside a trailing parenthesized annotation: the text
/// strictly between the last `(` and the last `)` of the trimmed input,
/// trimmed, provided the `)` comes after the `(` and the text is non-empty.
pub open spec fn spec_parse_constraint(s: Seq<char>) -> Option<Seq<char>> {
    let t = trim_spec(s);
    if t.len() == 0 {
        None
    } else {
        match last_index(t, '(') {
            None => None,
            Some(o) => match last_index(t, ')') {
                None => None,
                Some(cl) => if cl < o {
                    None
                } else {
                    let inner = trim_spec(t.subrange(o + 1, cl));
                    if inner.len() == 0 {
                        None
                    } else {
                        Some(inner)
                    }
                },
            },
        }
    }
}

/// The constraint of a trailing parenthesized annotation, if any.
fn parse_constraint(v: &Vec<char>) -> (r: Option<String>)
    ensures
        r.deep_view() == spec_parse_constraint(v@),
{
    let t = trim(v);
    if t.len() == 0 {
        return None;
    }
    let o = match rfind(&t, '(') {
        Some(o) => o,
        None => {
            return None;
        },
    };
    let cl = match rfind(&t, ')') {
        Some(cl) => cl,
        None => {
            return None;
        },
    };
    if cl < o {
        return None;
    }
    proof {
        lemma_last_index_props(t@, '(');
        lemma_last_index_props(t@, ')');
        assert(t@[o as int] == '(');
        assert(t@[cl as int] == ')');
        assert(o != cl);
    }
    let inner = trim(&sub_chars(&t, o + 1, cl));
    if inner.len() == 0 {
        None
    } else {
        Some(string_of(&inner))
    }
}

/// The value and optional constraint of a raw key/value region: when a
/// constraint is recognized, the value is everything before its opening
/// parenthesis, right-trimmed; otherwise the whole region, trimmed.
pub open spec fn spec_value_and_constraint(s: Seq<char>) -> (Seq<char>, Option<Seq<char>>) {
    match spec_parse_constraint(s) {
        Some(c) => match last_index(s, '(') {
            Some(p) => (trim_back(s.take(p)), Some(c)),
            None => (trim_spec(s), None),
        },
        None => (trim_spec(s), None),
    }
}

/// The value and optional constraint of a raw key/value region.
fn parse_value_and_constraint(v: &Vec<char>) -> (r: (Vec<char>, Option<String>))
    ensures
        r.0@ == spec_value_and_constraint(v@).0,
        r.1.deep_view() == spec_value_and_constraint(v@).1,
{
    let constraint = parse_constraint(v);
    if constraint.is_some() {
        match rfind(v, '(') {
            Some(p) => {
                proof {
                    lemma_last_index_props(v@, '(');
                }
                let value = trim_end(&sub_chars(v, 0, p));
                proof {
                    assert(v@.subrange(0, p as int) =~= v@.take(p as int));
                }
                return (value, constraint);
            },
            None => {},
        }
    }
    (trim(v), None)
}

/// Whether every dot-separated part of a header path is fully double-quoted
/// or consists only of alphanumeric characters and underscores.
pub open spec fn valid_path_part(p: Seq<char>) -> bool {
    ||| (p.len() > 0 && p[0] == '"' && p[p.len() - 1] == '"')
    ||| (forall|i: int| 0 <= i < p.len() ==> unicode_alnum(#[trigger] p[i]) || p[i] == '_')
}

/// Whether a header path is valid: every dot-separated part is.
pub open spec fn spec_is_valid_path(p: Seq<char>) -> bool {
    forall|i: int|
        0 <= i < split_char(p, '.').len() ==> valid_path_part(#[trigger] split_char(p, '.')[i])
}

/// Whether a header path is valid.
#[verifier::loop_isolation(false)]
fn is_valid_path(v: &Vec<char>) -> (r: bool)
    ensures
        r == spec_is_valid_path(v@),
{
    let parts = split_on(v, '.');
    let ghost ps = split_char(v@, '.');
    let mut i: usize = 0;
    while i < parts.len()
        invariant
            0 <= i <= parts@.len(),
            ps == split_char(v@, '.'),
            vecs_view(parts@) == ps,
            forall|j: int| 0 <= j < i ==> valid_path_part(#[trigger] ps[j]),
        decreases parts@.len() - i,
    {
        let part = &parts[i];
        proof {
            assert(part@ == ps[i as int]);
        }
        let quoted = part.len() > 0 && part[0] == '"' && part[part.len() - 1] == '"';
        if !quoted {
            let mut k: usize = 0;
            while k < part.len()
                invariant
                    0 <= k <= part@.len(),
                    forall|j: int|
                        0 <= j < k ==> unicode_alnum(#[trigger] part@[j]) || part@[j] == '_',
                decreases part@.len() - k,
            {
                let c = part[k];
                if !(c.is_alphanumeric() || c == '_') {
                    proof {
                        assert(!valid_path_part(ps[i as int]));
                    }
                    return false;
                }
                k = k + 1;
            }
        }
        proof {
            assert(valid_path_part(ps[i as int]));
        }
        i = i + 1;
    }
    true
}

/// What a line denotes as a header: its path and absoluteness, or nothing.
/// The trimmed line must end with `:`; a leading `#` on the remainder marks
/// it absolute; `#` alone is the root section (empty path); otherwise the
/// remainder must be a non-empty valid path.
pub open spec fn spec_header(line: Seq<char>) -> Option<(Seq<char>, bool)> {
    let stripped = trim_spec(line);
    if stripped.len() == 0 || stripped[stripped.len() - 1] != ':' {
        None
    } else {
        let body = trim_spec(stripped.take(stripped.len() - 1));
        let is_abs = body.len() > 0 && body[0] == '#';
        let path0 = if is_abs {
            trim_spec(body.skip(1))
        } else {
            body
        };
        if path0.len() == 0 {
            if is_abs {
                Some((Seq::empty(), true))
            } else {
                None
            }
        } else if spec_is_valid_path(path0) {
            Some((path0, is_abs))
        } else {
            None
        }
    }
}

/// The token a header line denotes.
pub open spec fn spec_header_token(line: Seq<char>, n: int) -> SpecToken {
    let h = spec_header(line)->0;
    let tt = if h.1 {
        TokenType::AbsoluteHeader
    } else {
        TokenType::RelativeHeader
    };
    SpecToken { path: Some(h.0), is_absolute: Some(h.1), ..spec_token0(tt, n, line) }
}

/// State the lexer carries across lines: whether a multiline block is open,
/// and the length of the quote run that opened it.
pub struct LexState {
    pub in_multiline: bool,
    pub quote_count: int,
}

/// The lexer: one token per source line, with multiline-block state.
pub struct Lexer {
    in_multiline: bool,
    multiline_quote_count: usize,
}

impl View for Lexer {
    type V = LexState;

    closed spec fn view(&self) -> LexState {
        LexState { in_multiline: self.in_multiline, quote_count: self.multiline_quote_count as int }
    }
}

/// The constraint trailing a closing quote run inside a raw value, as the
/// lexer extracts it (the last `quote_count` characters are searched).
pub open spec fn spec_constraint_after_quotes(s: Seq<char>, q: int) -> Option<Seq<char>> {
    if s.len() <= 2 * q {
        None
    } else {
        spec_parse_constraint(s.skip(s.len() - q))
    }
}

/// The constraint trailing a closing quote run at the end of a line, as the
/// lexer extracts it.
pub open spec fn spec_constraint_after_line(line: Seq<char>, q: int) -> Option<Seq<char>> {
    if line.len() < q {
        None
    } else {
        spec_parse_constraint(line.skip(line.len() - q))
    }
}

/// What a line does while a multiline block is open: a run of exactly the
/// opening length of double quotes at the end of the raw line closes the
/// block (a longer or shorter run does not), yielding the line up to the run,
/// right-trimmed; any other line is kept verbatim as content.
pub open spec fn spec_continuation(st: LexState, line: Seq<char>, n: int) -> (LexState, SpecToken) {
    if tail_quotes(line) == st.quote_count {
        (
            LexState { in_multiline: false, ..st },
            SpecToken {
                value: Some(trim_back(line.take(line.len() - st.quote_count))),
                constraint: spec_constraint_after_line(line, st.quote_count),
                ..spec_token0(TokenType::MultilineEnd, n, line)
            },
        )
    } else {
        (
            st,
            SpecToken { value: Some(line), ..spec_token0(TokenType::MultilineContent, n, line) },
        )
    }
}

/// What a key/value line denotes: the key is the trimmed text before the
/// first `=`; a leading quote run on the value opens a quoted literal, closed
/// on the same line only by a trailing run of exactly the same length with
/// text between the runs; otherwise it opens a multiline block; with no
/// leading quotes, the value and an optional trailing constraint.
pub open spec fn spec_key_value(st: LexState, line: Seq<char>, n: int) -> (LexState, SpecToken) {
    let e = find_char(line, '=')->0;
    let key = trim_spec(line.take(e));
    let rv = trim_front(line.skip(e + 1));
    let q = lead_quotes(rv);
    if q > 0 {
        if rv.len() > 2 * q && tail_quotes(rv) == q {
            (
                LexState { in_multiline: false, quote_count: q },
                SpecToken {
                    key: Some(key),
                    value: Some(rv.subrange(q, rv.len() - q)),
                    constraint: spec_constraint_after_quotes(rv, q),
                    ..spec_token0(TokenType::KeyValue, n, line)
                },
            )
        } else {
            (
                LexState { in_multiline: true, quote_count: q },
                SpecToken {
                    key: Some(key),
                    value: Some(rv.skip(q)),
                    quote_count: Some(q),
                    ..spec_token0(TokenType::MultilineStart, n, line)
                },
            )
        }
    } else {
        let vc = spec_value_and_constraint(rv);
        (
            st,
            SpecToken {
                key: Some(key),
                value: Some(vc.0),
                constraint: vc.1,
                ..spec_token0(TokenType::KeyValue, n, line)
            },
        )
    }
}

/// What one line denotes, given the lexer's state: a continuation while a
/// multiline block is open; else a blank line; else a header; else a
/// key/value line; else a bare scalar line.
pub open spec fn spec_line_token(st: LexState, line: Seq<char>, n: int) -> (LexState, SpecToken) {
    if st.in_multiline {
        spec_continuation(st, line, n)
    } else if trim_spec(line).len() == 0 {
        (st, spec_token0(TokenType::BlankLine, n, line))
    } else if spec_header(line) is Some {
        (st, spec_header_token(line, n))
    } else if find_char(line, '=') is Some {
        spec_key_value(st, line, n)
    } else {
        (
            st,
            SpecToken {
                value: Some(trim_spec(line)),
                ..spec_token0(TokenType::ScalarValue, n, line)
            },
        )
    }
}

/// The tokens of a sequence of lines, numbered from `n`, threaded through the
/// lexer state: exactly one token per line.
pub open spec fn spec_tokens(st: LexState, lines: Seq<Seq<char>>, n: int) -> (
    LexState,
    Seq<SpecToken>,
)
    decreases lines.len(),
{
    if lines.len() == 0 {
        (st, Seq::empty())
    } else {
        let first = spec_line_token(st, lines[0], n);
        let rest = spec_tokens(first.0, lines.skip(1), n + 1);
        (rest.0, seq![first.1] + rest.1)
    }
}

/// The models of a sequence of tokens.
pub open spec fn tokens_view(s: Seq<Token>) -> Seq<SpecToken> {
    Seq::new(s.len(), |i: int| s[i]@)
}

impl Lexer {
    /// A fresh lexer, outside any multiline block.
    pub fn new() -> (r: Lexer)
        ensures
            r@ == (LexState { in_multiline: false, quote_count: 0 }),
    {
        Lexer { in_multiline: false, multiline_quote_count: 0 }
    }

    /// Tokenize source text: one token per line, blocks of quoted multiline
    /// text tracked across lines. Never fails.
    pub fn tokenize(&mut self, text: &str) -> (r: Result<Vec<Token>, AdfError>)
        ensures
            r is Ok,
            ({
                let lr = spec_tokens(old(self)@, spec_lines(text@), 1);
                &&& final(self)@ == lr.0
                &&& tokens_view(r->Ok_0@) == lr.1
            }),
    {
        let tv = chars_of(text);
        let lines = split_lines(&tv);
        let ghost all = spec_lines(text@);
        let mut tokens: Vec<Token> = Vec::new();
        let mut i: usize = 0;
        proof {
            assert(all.skip(0) =~= all);
            assert(tokens_view(tokens@) =~= Seq::<SpecToken>::empty());
        }
        while i < lines.len()
            invariant
                0 <= i <= lines@.len(),
                vecs_view(lines@) == all,
                all == spec_lines(text@),
                ({
                    let full = spec_tokens(old(self)@, all, 1);
                    let rest = spec_tokens(self@, all.skip(i as int), i as int + 1);
                    full.0 == rest.0 && full.1 == tokens_view(tokens@) + rest.1
                }),
            decreases lines@.len() - i,
        {
            let ghost pre_tokens = tokens@;
            let ghost pre_state = self@;
            proof {
                assert(all.skip(i as int)[0] == lines@[i as int]@);
                assert(all.skip(i as int).skip(1) =~= all.skip(i as int + 1));
            }
            let t = self.tokenize_line(&lines[i], i + 1);
            tokens.push(t);
            proof {
                assert(tokens_view(tokens@) =~= tokens_view(pre_tokens).push(t@));
                let step = spec_line_token(pre_state, all.skip(i as int)[0], i as int + 1);
                assert(step.1 == t@);
                let rest_new = spec_tokens(self@, all.skip(i as int + 1), i as int + 2);
                assert(spec_tokens(pre_state, all.skip(i as int), i as int + 1).1 == seq![t@]
                    + rest_new.1);
                assert(tokens_view(pre_tokens) + (seq![t@] + rest_new.1) =~= tokens_view(tokens@)
                    + rest_new.1);
            }
            i = i + 1;
        }
        proof {
            assert(all.skip(all.len() as int) =~= Seq::<Seq<char>>::empty());
            assert(tokens_view(tokens@) + Seq::<SpecToken>::empty() =~= tokens_view(tokens@));
        }
        Ok(tokens)
    }

    /// Tokenize one line under the current state.
    fn tokenize_line(&mut self, line: &Vec<char>, line_number: usize) -> (r: Token)
        ensures
            final(self)@ == spec_line_token(old(self)@, line@, line_number as int).0,
            r@ == spec_line_token(old(self)@, line@, line_number as int).1,
    {
        if self.in_multiline {
            return self.handle_multiline_continuation(line, line_number);
        }
        let stripped = trim(line);
        if stripped.len() == 0 {
            return Token::new(TokenType::BlankLine, line_number, string_of(line));
        }
        match self.try_parse_header(line, line_number) {
            Some(t) => {
                return t;
            },
            None => {},
        }
        if find(line, '=').is_some() {
            return self.parse_key_value(line, line_number);
        }
        let mut t = Token::new(TokenType::ScalarValue, line_number, string_of(line));
        t.value = Some(string_of(&stripped));
        t
    }

    /// Parse a header line, if the line is one.
    fn try_parse_header(&self, line: &Vec<char>, line_number: usize) -> (r: Option<Token>)
        ensures
            match r {
                Some(t) => spec_header(line@) is Some && t@ == spec_header_token(
                    line@,
                    line_number as int,
                ),
                None => spec_header(line@) is None,
            },
    {
        let stripped = trim(line);
        if stripped.len() == 0 {
            return None;
        }
        if stripped[stripped.len() - 1] != ':' {
            return None;
        }
        let before_colon = sub_chars(&stripped, 0, stripped.len() - 1);
        proof {
            assert(before_colon@ =~= stripped@.take(stripped@.len() - 1));
        }
        let body = trim(&before_colon);
        let is_absolute = body.len() > 0 && body[0] == '#';
        let path0 = if is_absolute {
            let after_hash = sub_chars(&body, 1, body.len());
            proof {
                assert(after_hash@ =~= body@.skip(1));
            }
            trim(&after_hash)
        } else {
            body
        };
        if path0.len() == 0 {
            if is_absolute {
                let mut t = Token::new(
                    TokenType::AbsoluteHeader,
                    line_number,
                    string_of(line),
                );
                let empty_path = String::new();
                proof {
                    assert(empty_path@ =~= Seq::<char>::empty());
                    assert((spec_header(line@)->0).0 =~= Seq::<char>::empty());
                }
                t.path = Some(empty_path);
                t.is_absolute = Some(true);
                return Some(t);
            }
            return None;
        }
        if !is_valid_path(&path0) {
            return None;
        }
        let tt = if is_absolute {
            TokenType::AbsoluteHeader
        } else {
            TokenType::RelativeHeader
        };
        let mut t = Token::new(tt, line_number, string_of(line));
        t.path = Some(string_of(&path0));
        t.is_absolute = Some(is_absolute);
        Some(t)
    }

    /// Parse a key/value line, possibly opening a multiline block.
    fn parse_key_value(&mut self, line: &Vec<char>, line_number: usize) -> (r: Token)
        requires
            find_char(line@, '=') is Some,
        ensures
            final(self)@ == spec_key_value(old(self)@, line@, line_number as int).0,
            r@ == spec_key_value(old(self)@, line@, line_number as int).1,
    {
        let equals_pos = match find(line, '=') {
            Some(p) => p,
            None => {
                proof {
                    assert(false);
                }
                0
            },
        };
        proof {
            lemma_find_char_props(line@, '=');
        }
        let before = sub_chars(line, 0, equals_pos);
        proof {
            assert(before@ =~= line@.take(equals_pos as int));
        }
        let key = string_of(&trim(&before));
        let n = line.len();
        proof {
            assert(equals_pos < n);
        }
        let after = sub_chars(line, equals_pos + 1, n);
        proof {
            assert(after@ =~= line@.skip(equals_pos + 1));
        }
        let raw_value = trim_start(&after);

        let quote_count = count_leading_quotes(&raw_value);
        if quote_count > 0 {
            self.in_multiline = true;
            self.multiline_quote_count = quote_count;

            let long_enough = raw_value.len() > quote_count && raw_value.len() - quote_count
                > quote_count;
            if long_enough && ends_with_quotes(&raw_value, quote_count) {
                // The quoted literal closes on this same line.
                self.in_multiline = false;
                let value = extract_quoted_value(&raw_value, quote_count);
                let constraint = extract_constraint_after_quotes(&raw_value, quote_count);
                let mut t = Token::new(TokenType::KeyValue, line_number, string_of(line));
                t.key = Some(key);
                t.value = Some(string_of(&value));
                t.constraint = constraint;
                t
            } else {
                let content = if raw_value.len() > quote_count {
                    sub_chars(&raw_value, quote_count, raw_value.len())
                } else {
                    Vec::new()
                };
                proof {
                    assert(content@ =~= raw_value@.skip(lead_quotes(raw_value@)));
                }
                let mut t = Token::new(TokenType::MultilineStart, line_number, string_of(line));
                t.key = Some(key);
                t.value = Some(string_of(&content));
                t.quote_count = Some(quote_count);
                t
            }
        } else {
            let (value, constraint) = parse_value_and_constraint(&raw_value);
            let mut t = Token::new(TokenType::KeyValue, line_number, string_of(line));
            t.key = Some(key);
            t.value = Some(string_of(&value));
            t.constraint = constraint;
            t
        }
    }

    /// Handle a line inside a multiline block: close it on a trailing run of
    /// exactly the opening length of quotes, else keep the line verbatim.
    fn handle_multiline_continuation(&mut self, line: &Vec<char>, line_number: usize) -> (r: Token)
        ensures
            final(self)@ == spec_continuation(old(self)@, line@, line_number as int).0,
            r@ == spec_continuation(old(self)@, line@, line_number as int).1,
    {
        if ends_with_quotes(line, self.multiline_quote_count) {
            self.in_multiline = false;
            let content = if line.len() >= self.multiline_quote_count {
                trim_end(&sub_chars(line, 0, line.len() - self.multiline_quote_count))
            } else {
                Vec::new()
            };
            proof {
                assert(tail_quotes(line@) <= line@.len()) by {
                    lemma_tail_quotes_le(line@);
                }
                assert(line@.subrange(0, line@.len() - old(self)@.quote_count) =~= line@.take(
                    line@.len() - old(self)@.quote_count,
                ));
            }
            let constraint = extract_constraint_after_line(line, self.multiline_quote_count);
            let mut t = Token::new(TokenType::MultilineEnd, line_number, string_of(line));
            t.value = Some(string_of(&content));
            t.constraint = constraint;
            t
        } else {
            let mut t = Token::new(TokenType::MultilineContent, line_number, string_of(line));
            t.value = Some(string_of(line));
            t
        }
    }
}

proof fn lemma_tail_quotes_le(s: Seq<char>)
    ensures
        0 <= tail_quotes(s) <= s.len(),
    decreases s.len(),
{
    if s.len() > 0 && s[s.len() - 1] == '"' {
        lemma_tail_quotes_le(s.take(s.len() - 1));
    }
}

/// The text strictly between the opening and closing quote runs.
fn extract_quoted_value(v: &Vec<char>, quote_count: usize) -> (r: Vec<char>)
    ensures
        r@ == (if v@.len() < 2 * quote_count {
            Seq::<char>::empty()
        } else {
            v@.subrange(quote_count as int, v@.len() - quote_count)
        }),
{
    if v.len() < quote_count || v.len() - quote_count < quote_count {
        Vec::new()
    } else {
        sub_chars(v, quote_count, v.len() - quote_count)
    }
}

/// The constraint trailing the closing quote run of a same-line quoted value.
fn extract_constraint_after_quotes(v: &Vec<char>, quote_count: usize) -> (r: Option<String>)
    ensures
        r.deep_view() == spec_constraint_after_quotes(v@, quote_count as int),
{
    if v.len() < quote_count || v.len() - quote_count <= quote_count {
        None
    } else {
        let after = sub_chars(v, v.len() - quote_count, v.len());
        proof {
            assert(after@ =~= v@.skip(v@.len() - quote_count));
        }
        parse_constraint(&after)
    }
}

/// The constraint trailing the closing quote run of a multiline block.
fn extract_constraint_after_line(line: &Vec<char>, quote_count: usize) -> (r: Option<String>)
    ensures
        r.deep_view() == spec_constraint_after_line(line@, quote_count as int),
{
    if line.len() < quote_count {
        None
    } else {
        let after = sub_chars(line, line.len() - quote_count, line.len());
        proof {
            assert(after@ =~= line@.skip(line@.len() - quote_count));
        }
        parse_constraint(&after)
    }
}

/// Law: quote-run matching is exact. While a block opened by a run of
/// `st.quote_count` quotes is open, a line closes it exactly when the run of
/// quotes at the end of the raw line has that very length: a longer or a
/// shorter run leaves the block open and the line is kept as content.
pub proof fn lemma_quote_run_exact(st: LexState, line: Seq<char>, n: int)
    requires
        st.in_multiline,
    ensures
        (spec_continuation(st, line, n).1.token_type == TokenType::MultilineEnd) <==> tail_quotes(
            line,
        ) == st.quote_count,
        tail_quotes(line) != st.quote_count ==> spec_continuation(st, line, n).0 == st
            && spec_continuation(st, line, n).1.token_type == TokenType::MultilineContent
            && spec_continuation(st, line, n).1.value == Some(line),
{
}

impl Default for Lexer {
    /// A fresh lexer, outside any multiline block.
    fn default() -> (r: Lexer)
        ensures
            r@ == (LexState { in_multiline: false, quote_count: 0 }),
    {
        Lexer::new()
    }
}

} // verus!
