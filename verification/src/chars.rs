//! Character-level utilities: whitespace classification and trimming,
//! conversions between `&str` / `String` and `Vec<char>`, and subsequence
//! extraction, each specified over sequences of characters.

use vstd::prelude::*;
use vstd::string::StrSliceExecFns;
use vstd::string::StringExecFns;

verus! {

/// Whether `c` has the Unicode `White_Space` property, the class that
/// `str::trim` and blank-line detection go by.
pub open spec fn is_space_char(c: char) -> bool {
    ||| c == '\u{9}'
    ||| c == '\u{a}'
    ||| c == '\u{b}'
    ||| c == '\u{c}'
    ||| c == '\u{d}'
    ||| c == ' '
    ||| c == '\u{85}'
    ||| c == '\u{a0}'
    ||| c == '\u{1680}'
    ||| ('\u{2000}' <= c && c <= '\u{200a}')
    ||| c == '\u{2028}'
    ||| c == '\u{2029}'
    ||| c == '\u{202f}'
    ||| c == '\u{205f}'
    ||| c == '\u{3000}'
}

pub fn is_space(c: char) -> (r: bool)
    ensures
        r == is_space_char(c),
{
    c == '\u{9}' || c == '\u{a}' || c == '\u{b}' || c == '\u{c}' || c == '\u{d}' || c == ' '
        || c == '\u{85}' || c == '\u{a0}' || c == '\u{1680}'
        || ('\u{2000}' <= c && c <= '\u{200a}') || c == '\u{2028}' || c == '\u{2029}'
        || c == '\u{202f}' || c == '\u{205f}' || c == '\u{3000}'
}

/// `s` with its leading whitespace removed.
pub open spec fn trim_front(s: Seq<char>) -> Seq<char>
    decreases s.len(),
{
    if s.len() > 0 && is_space_char(s[0]) {
        trim_front(s.skip(1))
    } else {
        s
    }
}

/// `s` with its trailing whitespace removed.
pub open spec fn trim_back(s: Seq<char>) -> Seq<char>
    decreases s.len(),
{
    if s.len() > 0 && is_space_char(s[s.len() - 1]) {
        trim_back(s.take(s.len() - 1))
    } else {
        s
    }
}

/// `s` with whitespace removed from both ends.
pub open spec fn trim_spec(s: Seq<char>) -> Seq<char> {
    trim_back(trim_front(s))
}

proof fn lemma_trim_front_skip(s: Seq<char>, i: int)
    requires
        0 <= i <= s.len(),
        forall|j: int| 0 <= j < i ==> is_space_char(s[j]),
    ensures
        trim_front(s) == trim_front(s.skip(i)),
    decreases i,
{
    if i > 0 {
        assert(trim_front(s) == trim_front(s.skip(1)));
        assert(s.skip(1).skip(i - 1) =~= s.skip(i));
        lemma_trim_front_skip(s.skip(1), i - 1);
    } else {
        assert(s.skip(0) =~= s);
    }
}

proof fn lemma_trim_back_take(s: Seq<char>, i: int)
    requires
        0 <= i <= s.len(),
        forall|j: int| i <= j < s.len() ==> is_space_char(s[j]),
    ensures
        trim_back(s) == trim_back(s.take(i)),
    decreases s.len() - i,
{
    if i < s.len() {
        assert(trim_back(s) == trim_back(s.take(s.len() - 1)));
        assert(s.take(s.len() - 1).take(i) =~= s.take(i));
        lemma_trim_back_take(s.take(s.len() - 1), i);
    } else {
        assert(s.take(s.len() as int) =~= s);
    }
}

/// Copy of `v[from..to]`.
pub fn sub_chars(v: &Vec<char>, from: usize, to: usize) -> (r: Vec<char>)
    requires
        from <= to <= v@.len(),
    ensures
        r@ == v@.subrange(from as int, to as int),
{
    let mut r: Vec<char> = Vec::new();
    let mut i = from;
    while i < to
        invariant
            from <= i <= to <= v@.len(),
            r@ =~= v@.subrange(from as int, i as int),
        decreases to - i,
    {
        r.push(v[i]);
        i = i + 1;
        proof {
            assert(r@ =~= v@.subrange(from as int, i as int));
        }
    }
    r
}

/// `v` with whitespace removed from both ends.
pub fn trim(v: &Vec<char>) -> (r: Vec<char>)
    ensures
        r@ == trim_spec(v@),
{
    let ghost s = v@;
    let mut i: usize = 0;
    while i < v.len() && is_space(v[i as usize])
        invariant
            0 <= i <= s.len(),
            s == v@,
            forall|j: int| 0 <= j < i ==> is_space_char(s[j]),
        decreases s.len() - i,
    {
        i = i + 1;
    }
    proof {
        lemma_trim_front_skip(s, i as int);
    }
    let mut j: usize = v.len();
    while j > i && is_space(v[j - 1])
        invariant
            i <= j <= s.len(),
            s == v@,
            forall|k: int| j <= k < s.len() ==> is_space_char(s[k]),
        decreases j,
    {
        j = j - 1;
    }
    proof {
        let t = s.skip(i as int);
        assert(trim_front(s) == t);
        assert(forall|k: int| j - i <= k < t.len() ==> is_space_char(t[k]));
        lemma_trim_back_take(t, j - i);
        if j > i {
            assert(!is_space_char(t[j - i - 1]));
        }
        assert(trim_back(t.take(j - i)) == t.take(j - i));
        assert(t.take(j - i) =~= s.subrange(i as int, j as int));
    }
    sub_chars(v, i, j)
}

/// `v` with leading whitespace removed.
pub fn trim_start(v: &Vec<char>) -> (r: Vec<char>)
    ensures
        r@ == trim_front(v@),
{
    let ghost s = v@;
    let mut i: usize = 0;
    while i < v.len() && is_space(v[i as usize])
        invariant
            0 <= i <= s.len(),
            s == v@,
            forall|j: int| 0 <= j < i ==> is_space_char(s[j]),
        decreases s.len() - i,
    {
        i = i + 1;
    }
    proof {
        lemma_trim_front_skip(s, i as int);
        assert(trim_front(s.skip(i as int)) == s.skip(i as int));
        assert(s.skip(i as int) =~= s.subrange(i as int, s.len() as int));
    }
    sub_chars(v, i, v.len())
}

/// `v` with trailing whitespace removed.
pub fn trim_end(v: &Vec<char>) -> (r: Vec<char>)
    ensures
        r@ == trim_back(v@),
{
    let ghost s = v@;
    let mut j: usize = v.len();
    while j > 0 && is_space(v[j - 1])
        invariant
            0 <= j <= s.len(),
            s == v@,
            forall|k: int| j <= k < s.len() ==> is_space_char(s[k]),
        decreases j,
    {
        j = j - 1;
    }
    proof {
        lemma_trim_back_take(s, j as int);
        assert(trim_back(s.take(j as int)) == s.take(j as int));
        assert(s.take(j as int) =~= s.subrange(0, j as int));
    }
    sub_chars(v, 0, j)
}

/// Whether the Unicode tables class `c` as alphanumeric; the value
/// `char::is_alphanumeric` returns, a function of the character alone.
pub uninterp spec fn unicode_alnum(c: char) -> bool;

/// Relies on `char::is_alphanumeric`: true exactly of Unicode alphabetic or
/// numeric characters; on an ASCII character, exactly of the letters and
/// digits.
pub assume_specification [ char::is_alphanumeric ](c: char) -> (r: bool)
    ensures
        r == unicode_alnum(c),
        (c as u32) < 128 ==> r == (('0' <= c && c <= '9') || ('a' <= c && c <= 'z') || ('A' <= c
            && c <= 'Z')),
;

/// Shift an optional index by `k`.
pub open spec fn opt_shift(o: Option<int>, k: int) -> Option<int> {
    match o {
        Some(j) => Some(j + k),
        None => None,
    }
}

/// Index of the first occurrence of `c` in `s`.
pub open spec fn find_char(s: Seq<char>, c: char) -> Option<int>
    decreases s.len(),
{
    if s.len() == 0 {
        None
    } else if s[0] == c {
        Some(0)
    } else {
        opt_shift(find_char(s.skip(1), c), 1)
    }
}

/// Index of the first occurrence of `c` in `v`.
pub fn find(v: &Vec<char>, c: char) -> (r: Option<usize>)
    ensures
        match r {
            Some(i) => find_char(v@, c) == Some(i as int),
            None => find_char(v@, c) is None,
        },
{
    let ghost s = v@;
    let mut i: usize = 0;
    proof {
        assert(s.skip(0) =~= s);
    }
    while i < v.len()
        invariant
            0 <= i <= s.len(),
            s == v@,
            find_char(s, c) == opt_shift(find_char(s.skip(i as int), c), i as int),
        decreases s.len() - i,
    {
        if v[i] == c {
            return Some(i);
        }
        proof {
            assert(s.skip(i as int).skip(1) =~= s.skip(i + 1));
        }
        i = i + 1;
    }
    None
}

/// Where `find_char` points: at an occurrence of `c`, and at the first one.
pub proof fn lemma_find_char_props(s: Seq<char>, c: char)
    ensures
        match find_char(s, c) {
            Some(i) => 0 <= i < s.len() && s[i] == c && (forall|j: int| 0 <= j < i ==> s[j] != c),
            None => forall|j: int| 0 <= j < s.len() ==> s[j] != c,
        },
    decreases s.len(),
{
    if s.len() > 0 && s[0] != c {
        let t = s.skip(1);
        lemma_find_char_props(t, c);
        if find_char(t, c) is Some {
            let i = find_char(t, c)->0;
            assert(t[i] == s[i + 1]);
            assert forall|j: int| 0 <= j < i + 1 implies s[j] != c by {
                if j > 0 {
                    assert(t[j - 1] == s[j]);
                }
            }
        } else {
            assert forall|j: int| 0 <= j < s.len() implies s[j] != c by {
                if j > 0 {
                    assert(t[j - 1] == s[j]);
                }
            }
        }
    }
}

/// Index of the last occurrence of `c` in `s`.
pub open spec fn last_index(s: Seq<char>, c: char) -> Option<int>
    decreases s.len(),
{
    if s.len() == 0 {
        None
    } else if s[s.len() - 1] == c {
        Some(s.len() - 1)
    } else {
        last_index(s.take(s.len() - 1), c)
    }
}

/// Index of the last occurrence of `c` in `v`.
pub fn rfind(v: &Vec<char>, c: char) -> (r: Option<usize>)
    ensures
        match r {
            Some(i) => last_index(v@, c) == Some(i as int),
            None => last_index(v@, c) is None,
        },
{
    let ghost s = v@;
    let mut j: usize = v.len();
    proof {
        assert(s.take(s.len() as int) =~= s);
    }
    while j > 0
        invariant
            0 <= j <= s.len(),
            s == v@,
            last_index(s, c) == last_index(s.take(j as int), c),
        decreases j,
    {
        if v[j - 1] == c {
            proof {
                assert(s.take(j as int)[j - 1] == s[j - 1]);
            }
            return Some(j - 1);
        }
        proof {
            assert(s.take(j as int).take(j - 1) =~= s.take(j - 1));
        }
        j = j - 1;
    }
    proof {
        assert(s.take(0) =~= Seq::<char>::empty());
    }
    None
}

/// Where `last_index` points: at an occurrence of `c`, and at the last one.
pub proof fn lemma_last_index_props(s: Seq<char>, c: char)
    ensures
        match last_index(s, c) {
            Some(i) => 0 <= i < s.len() && s[i] == c && (forall|j: int|
                i < j < s.len() ==> s[j] != c),
            None => forall|j: int| 0 <= j < s.len() ==> s[j] != c,
        },
    decreases s.len(),
{
    if s.len() > 0 && s[s.len() - 1] != c {
        let t = s.take(s.len() - 1);
        lemma_last_index_props(t, c);
        if last_index(t, c) is Some {
            let i = last_index(t, c)->0;
            assert(t[i] == s[i]);
            assert forall|j: int| i < j < s.len() implies s[j] != c by {
                if j < s.len() - 1 {
                    assert(t[j] == s[j]);
                }
            }
        } else {
            assert forall|j: int| 0 <= j < s.len() implies s[j] != c by {
                if j < s.len() - 1 {
                    assert(t[j] == s[j]);
                }
            }
        }
    }
}

/// The views of a sequence of character vectors.
pub open spec fn vecs_view(s: Seq<Vec<char>>) -> Seq<Seq<char>> {
    Seq::new(s.len(), |i: int| s[i]@)
}

/// State of the splitter after reading `s`: completed pieces and the pending
/// piece. Every occurrence of `c` ends a piece; pieces may be empty.
pub open spec fn split_state(s: Seq<char>, c: char) -> (Seq<Seq<char>>, Seq<char>)
    decreases s.len(),
{
    if s.len() == 0 {
        (Seq::empty(), Seq::empty())
    } else {
        let st = split_state(s.take(s.len() - 1), c);
        let ch = s[s.len() - 1];
        if ch == c {
            (st.0.push(st.1), Seq::empty())
        } else {
            (st.0, st.1.push(ch))
        }
    }
}

/// `s` split on `c`: one piece more than there are occurrences of `c`.
pub open spec fn split_char(s: Seq<char>, c: char) -> Seq<Seq<char>> {
    let st = split_state(s, c);
    st.0.push(st.1)
}

/// `v` split on `c`.
pub fn split_on(v: &Vec<char>, c: char) -> (r: Vec<Vec<char>>)
    ensures
        vecs_view(r@) == split_char(v@, c),
{
    let ghost s = v@;
    let mut parts: Vec<Vec<char>> = Vec::new();
    let mut cur: Vec<char> = Vec::new();
    let mut i: usize = 0;
    while i < v.len()
        invariant
            0 <= i <= s.len(),
            s == v@,
            vecs_view(parts@) == split_state(s.take(i as int), c).0,
            cur@ == split_state(s.take(i as int), c).1,
        decreases s.len() - i,
    {
        let ch = v[i];
        proof {
            assert(s.take(i + 1).take(i as int) =~= s.take(i as int));
            assert(s.take(i + 1)[i as int] == ch);
        }
        if ch == c {
            parts.push(cur);
            cur = Vec::new();
            proof {
                assert(vecs_view(parts@) =~= split_state(s.take(i + 1), c).0);
            }
        } else {
            cur.push(ch);
        }
        i = i + 1;
    }
    proof {
        assert(s.take(s.len() as int) =~= s);
    }
    parts.push(cur);
    proof {
        assert(vecs_view(parts@) =~= split_char(s, c));
    }
    parts
}

/// One trailing carriage return removed, as line splitting does at a line
/// feed.
pub open spec fn strip_cr(l: Seq<char>) -> Seq<char> {
    if l.len() > 0 && l[l.len() - 1] == '\r' {
        l.take(l.len() - 1)
    } else {
        l
    }
}

/// State of the line splitter after reading `s`: completed lines and the
/// pending line. A line feed ends a line, with one carriage return just
/// before it removed.
pub open spec fn lines_state(s: Seq<char>) -> (Seq<Seq<char>>, Seq<char>)
    decreases s.len(),
{
    if s.len() == 0 {
        (Seq::empty(), Seq::empty())
    } else {
        let st = lines_state(s.take(s.len() - 1));
        let ch = s[s.len() - 1];
        if ch == '\n' {
            (st.0.push(strip_cr(st.1)), Seq::empty())
        } else {
            (st.0, st.1.push(ch))
        }
    }
}

/// The lines of `s`: split at line feeds, one carriage return stripped before
/// each line feed, and a final empty piece after a trailing line feed
/// dropped.
pub open spec fn spec_lines(s: Seq<char>) -> Seq<Seq<char>> {
    let st = lines_state(s);
    if st.1.len() > 0 {
        st.0.push(st.1)
    } else {
        st.0
    }
}

/// The lines of `v`.
pub fn split_lines(v: &Vec<char>) -> (r: Vec<Vec<char>>)
    ensures
        vecs_view(r@) == spec_lines(v@),
{
    let ghost s = v@;
    let mut lines: Vec<Vec<char>> = Vec::new();
    let mut cur: Vec<char> = Vec::new();
    let mut i: usize = 0;
    while i < v.len()
        invariant
            0 <= i <= s.len(),
            s == v@,
            vecs_view(lines@) == lines_state(s.take(i as int)).0,
            cur@ == lines_state(s.take(i as int)).1,
        decreases s.len() - i,
    {
        let ch = v[i];
        proof {
            assert(s.take(i + 1).take(i as int) =~= s.take(i as int));
            assert(s.take(i + 1)[i as int] == ch);
        }
        if ch == '\n' {
            if cur.len() > 0 && cur[cur.len() - 1] == '\r' {
                let _ = cur.pop();
                proof {
                    assert(cur@ =~= strip_cr(lines_state(s.take(i as int)).1));
                }
            }
            lines.push(cur);
            cur = Vec::new();
            proof {
                assert(vecs_view(lines@) =~= lines_state(s.take(i + 1)).0);
            }
        } else {
            cur.push(ch);
        }
        i = i + 1;
    }
    proof {
        assert(s.take(s.len() as int) =~= s);
    }
    if cur.len() > 0 {
        lines.push(cur);
        proof {
            assert(vecs_view(lines@) =~= spec_lines(s));
        }
    } else {
        proof {
            assert(vecs_view(lines@) =~= spec_lines(s));
        }
    }
    lines
}

/// The characters of `s`, in order.
pub fn chars_of(s: &str) -> (r: Vec<char>)
    ensures
        r@ == s@,
{
    let n = s.unicode_len();
    let mut r: Vec<char> = Vec::new();
    let mut i: usize = 0;
    while i < n
        invariant
            0 <= i <= n,
            n == s@.len(),
            r@ =~= s@.take(i as int),
        decreases n - i,
    {
        r.push(s.get_char(i));
        i = i + 1;
        proof {
            assert(r@ =~= s@.take(i as int));
        }
    }
    proof {
        assert(s@.take(n as int) =~= s@);
    }
    r
}

/// Relies on `String::push`: appends the given character to the end of the
/// string.
pub assume_specification [ String::push ](s: &mut String, c: char)
    ensures
        final(s)@ == old(s)@.push(c),
;

/// A `String` holding exactly the characters of `v`.
pub fn string_of(v: &Vec<char>) -> (r: String)
    ensures
        r@ == v@,
{
    let mut r = String::new();
    let mut i: usize = 0;
    while i < v.len()
        invariant
            0 <= i <= v@.len(),
            r@ =~= v@.take(i as int),
        decreases v@.len() - i,
    {
        r.push(v[i]);
        i = i + 1;
        proof {
            assert(r@ =~= v@.take(i as int));
        }
    }
    proof {
        assert(v@.take(v@.len() as int) =~= v@);
    }
    r
}

} // verus!
