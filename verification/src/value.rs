//! The `Value` datatype: any datum a parsed document can hold, together with
//! its mathematical model `SpecValue` (strings as sequences of characters,
//! objects as finite maps from key to value).

use vstd::prelude::*;

verus! {

/// Mathematical model of a document value. Objects are finite maps, so two
/// values are equal exactly when they are structurally equal, independent of
/// the order in which object fields were inserted.
#[verifier::ext_equal]
pub enum SpecValue {
    Text(Seq<char>),
    Integer(i64),
    /// A floating-point datum, kept as the literal text it was written as.
    FloatLit(Seq<char>),
    Boolean(bool),
    Null,
    Array(Seq<SpecValue>),
    Object(Map<Seq<char>, SpecValue>),
}

/// A value in a parsed document: a scalar, an ordered array, or an object
/// (a mapping from string keys to values, keys unique).
///
/// A floating-point scalar is carried as its source literal (`FloatLit`);
/// the library classifies float syntax but never computes with floats.
#[derive(Debug)]
pub enum Value {
    Text(String),
    Integer(i64),
    FloatLit(String),
    Boolean(bool),
    Null,
    Array(Vec<Value>),
    Object(Vec<(String, Value)>),
}

/// Pairwise distinct keys in an object's field list.
pub open spec fn obj_keys_unique(s: Seq<(String, Value)>) -> bool {
    forall|i: int, j: int|
        0 <= i < j < s.len() ==> (#[trigger] s[i].0@) != (#[trigger] s[j].0@)
}

/// Well-formedness of an object's field list: distinct keys, well-formed
/// values.
pub open spec fn obj_wf(s: Seq<(String, Value)>) -> bool
    decreases s,
{
    obj_keys_unique(s) && (forall|i: int| 0 <= i < s.len() ==> (#[trigger] s[i].1).wf())
}

impl Value {
    /// The mathematical model of this value.
    pub open spec fn model(self) -> SpecValue
        decreases self,
    {
        match self {
            Value::Text(s) => SpecValue::Text(s@),
            Value::Integer(i) => SpecValue::Integer(i),
            Value::FloatLit(s) => SpecValue::FloatLit(s@),
            Value::Boolean(b) => SpecValue::Boolean(b),
            Value::Null => SpecValue::Null,
            Value::Array(a) => SpecValue::Array(arr_model(a@)),
            Value::Object(fields) => SpecValue::Object(obj_model(fields@)),
        }
    }

    /// Well-formedness: every object, at every depth, has pairwise distinct
    /// keys, so that the map model loses nothing.
    pub open spec fn wf(self) -> bool
        decreases self,
    {
        match self {
            Value::Array(a) => forall|i: int| 0 <= i < a@.len() ==> (#[trigger] a@[i]).wf(),
            Value::Object(fields) => obj_wf(fields@),
            _ => true,
        }
    }
}

impl View for Value {
    type V = SpecValue;

    open spec fn view(&self) -> SpecValue {
        self.model()
    }
}

/// Model of an array's elements.
pub open spec fn arr_model(s: Seq<Value>) -> Seq<SpecValue>
    decreases s,
{
    if s.len() == 0 {
        Seq::empty()
    } else {
        arr_model(s.subrange(0, s.len() - 1)).push(s[s.len() - 1].model())
    }
}

/// Model of an object's field list: later entries for the same key win,
/// matching direct map assignment.
pub open spec fn obj_model(s: Seq<(String, Value)>) -> Map<Seq<char>, SpecValue>
    decreases s,
{
    if s.len() == 0 {
        Map::empty()
    } else {
        obj_model(s.subrange(0, s.len() - 1)).insert(s[s.len() - 1].0@, s[s.len() - 1].1.model())
    }
}

pub proof fn lemma_arr_model_index(s: Seq<Value>)
    ensures
        arr_model(s).len() == s.len(),
        forall|i: int| 0 <= i < s.len() ==> arr_model(s)[i] == (#[trigger] s[i]).model(),
    decreases s.len(),
{
    if s.len() > 0 {
        let pre = s.subrange(0, s.len() - 1);
        lemma_arr_model_index(pre);
        assert forall|i: int| 0 <= i < s.len() implies arr_model(s)[i] == (#[trigger] s[i]).model()
        by {
            if i < s.len() - 1 {
                assert(arr_model(s)[i] == arr_model(pre)[i]);
                assert(pre[i] == s[i]);
            }
        }
    }
}

/// Appending one element extends the model by its model.
pub proof fn lemma_arr_model_push(s: Seq<Value>, v: Value)
    ensures
        arr_model(s.push(v)) == arr_model(s).push(v.model()),
{
    let t = s.push(v);
    assert(t.subrange(0, t.len() - 1) =~= s);
    assert(t[t.len() - 1] == v);
}

pub proof fn lemma_obj_model_contains(s: Seq<(String, Value)>, k: Seq<char>)
    ensures
        obj_model(s).dom().contains(k) <==> exists|i: int|
            0 <= i < s.len() && (#[trigger] s[i].0)@ == k,
    decreases s.len(),
{
    if s.len() > 0 {
        lemma_obj_model_contains(s.subrange(0, s.len() - 1), k);
        if s[s.len() - 1].0@ == k {
            assert(0 <= s.len() - 1 < s.len() && s[s.len() - 1].0@ == k);
        } else {
            if exists|i: int| 0 <= i < s.len() - 1 && (#[trigger] s[i].0)@ == k {
                let i = choose|i: int| 0 <= i < s.len() - 1 && (#[trigger] s[i].0)@ == k;
                assert(s.subrange(0, s.len() - 1)[i].0@ == k);
            }
            if exists|i: int| 0 <= i < s.len() && (#[trigger] s[i].0)@ == k {
                let i = choose|i: int| 0 <= i < s.len() && (#[trigger] s[i].0)@ == k;
                if i < s.len() - 1 {
                    assert(s.subrange(0, s.len() - 1)[i].0@ == k);
                }
            }
        }
    }
}

/// If `i` holds the last entry for key `k`, the model maps `k` to that
/// entry's value.
pub proof fn lemma_obj_model_get(s: Seq<(String, Value)>, k: Seq<char>, i: int)
    requires
        0 <= i < s.len(),
        s[i].0@ == k,
        forall|j: int| i < j < s.len() ==> (#[trigger] s[j].0)@ != k,
    ensures
        obj_model(s).dom().contains(k),
        obj_model(s)[k] == s[i].1.model(),
    decreases s.len(),
{
    if i == s.len() - 1 {
    } else {
        lemma_obj_model_get(s.subrange(0, s.len() - 1), k, i);
    }
}

/// Two field lists with equal keys and model-equal values, position by
/// position, have the same model.
pub proof fn lemma_obj_model_congruent(s1: Seq<(String, Value)>, s2: Seq<(String, Value)>)
    requires
        s1.len() == s2.len(),
        forall|i: int| 0 <= i < s1.len() ==> (#[trigger] s1[i].0)@ == (#[trigger] s2[i].0)@,
        forall|i: int| 0 <= i < s1.len() ==> (#[trigger] s1[i].1).model() == (#[trigger] s2[i].1).model(),
    ensures
        obj_model(s1) == obj_model(s2),
    decreases s1.len(),
{
    if s1.len() > 0 {
        let p1 = s1.subrange(0, s1.len() - 1);
        let p2 = s2.subrange(0, s2.len() - 1);
        lemma_obj_model_congruent(p1, p2);
    }
}

/// Replacing the sole entry for key `k` updates the model at `k`.
pub proof fn lemma_obj_model_update(s: Seq<(String, Value)>, i: int, e: (String, Value))
    requires
        0 <= i < s.len(),
        e.0@ == s[i].0@,
        forall|j: int| i < j < s.len() ==> (#[trigger] s[j].0)@ != e.0@,
    ensures
        obj_model(s.update(i, e)) == obj_model(s).insert(e.0@, e.1.model()),
    decreases s.len(),
{
    let n = s.len() - 1;
    let pre = s.subrange(0, n);
    let su = s.update(i, e);
    assert(su.len() == s.len());
    if i == n {
        assert(su.subrange(0, n) =~= pre);
        assert(obj_model(su) == obj_model(pre).insert(e.0@, e.1.model()));
        assert(obj_model(s) == obj_model(pre).insert(s[n].0@, s[n].1.model()));
        assert(obj_model(pre).insert(s[n].0@, s[n].1.model()).insert(e.0@, e.1.model())
            =~= obj_model(pre).insert(e.0@, e.1.model()));
    } else {
        assert(su.subrange(0, n) =~= pre.update(i, e));
        lemma_obj_model_update(pre, i, e);
        assert(obj_model(su) == obj_model(pre).insert(e.0@, e.1.model()).insert(
            s[n].0@,
            s[n].1.model(),
        ));
        assert(s[n].0@ != e.0@);
        assert(obj_model(pre).insert(e.0@, e.1.model()).insert(s[n].0@, s[n].1.model())
            =~= obj_model(pre).insert(s[n].0@, s[n].1.model()).insert(e.0@, e.1.model()));
    }
}

impl Clone for Value {
    /// Deep copy; the copy has the same model.
    #[verifier::loop_isolation(false)]
    fn clone(&self) -> (r: Self)
        ensures
            r@ == self@,
            self.wf() ==> r.wf(),
        decreases *self,
    {
        match self {
            Value::Text(s) => {
                let r = Value::Text(s.clone());
                proof {
                    assert(r.wf());
                }
                r
            },
            Value::Integer(i) => Value::Integer(*i),
            Value::FloatLit(s) => Value::FloatLit(s.clone()),
            Value::Boolean(b) => Value::Boolean(*b),
            Value::Null => Value::Null,
            Value::Array(a) => {
                let mut out: Vec<Value> = Vec::new();
                let mut i: usize = 0;
                while i < a.len()
                    invariant
                        0 <= i <= a@.len(),
                        out@.len() == i,
                        forall|j: int| 0 <= j < i ==> (#[trigger] out@[j]).model() == a@[j].model(),
                        forall|j: int| 0 <= j < i ==> a@[j].wf() ==> (#[trigger] out@[j]).wf(),
                    decreases a@.len() - i,
                {
                    proof {
                        assert(*self == Value::Array(*a));
                        assert(decreases_to!(*self => *a));
                        assert(decreases_to!(*a => a@));
                        assert(decreases_to!(a@ => a@[i as int]));
                    }
                    out.push(a[i].clone());
                    i = i + 1;
                }
                proof {
                    lemma_arr_model_index(out@);
                    lemma_arr_model_index(a@);
                    assert forall|k: int| 0 <= k < a@.len() implies arr_model(out@)[k] == arr_model(
                        a@,
                    )[k] by {
                        assert(out@[k].model() == a@[k].model());
                    }
                    assert(arr_model(out@) =~= arr_model(a@));
                    if self.wf() {
                        assert forall|j: int| 0 <= j < out@.len() implies (#[trigger] out@[j]).wf()
                        by {
                            assert(a@[j].wf());
                        }
                    }
                }
                Value::Array(out)
            },
            Value::Object(fields) => {
                let mut out: Vec<(String, Value)> = Vec::new();
                let mut i: usize = 0;
                while i < fields.len()
                    invariant
                        0 <= i <= fields@.len(),
                        out@.len() == i,
                        forall|j: int| 0 <= j < i ==> (#[trigger] out@[j].0)@ == fields@[j].0@,
                        forall|j: int|
                            0 <= j < i ==> (#[trigger] out@[j].1).model() == fields@[j].1.model(),
                        forall|j: int| 0 <= j < i ==> fields@[j].1.wf() ==> (#[trigger] out@[j].1).wf(),
                    decreases fields@.len() - i,
                {
                    proof {
                        assert(*self == Value::Object(*fields));
                        assert(decreases_to!(*self => *fields));
                        assert(decreases_to!(*fields => fields@));
                        assert(decreases_to!(fields@ => fields@[i as int]));
                        assert(decreases_to!(fields@[i as int] => fields@[i as int].1));
                    }
                    let k = fields[i].0.clone();
                    let v = fields[i].1.clone();
                    out.push((k, v));
                    i = i + 1;
                }
                proof {
                    lemma_obj_model_congruent(out@, fields@);
                    if self.wf() {
                        assert(obj_wf(fields@));
                        assert forall|i1: int, j1: int|
                            0 <= i1 < j1 < out@.len() implies (#[trigger] out@[i1].0)@ != (
                        #[trigger] out@[j1].0)@ by {
                            assert(fields@[i1].0@ != fields@[j1].0@);
                        }
                        assert forall|j: int| 0 <= j < out@.len() implies (
                        #[trigger] out@[j].1).wf() by {
                            assert(fields@[j].1.wf());
                        }
                        assert(obj_wf(out@));
                    }
                }
                Value::Object(out)
            },
        }
    }
}

impl Value {
    /// Whether this value is a text scalar.
    pub fn is_string(&self) -> (r: bool)
        ensures
            r == (self@ is Text),
    {
        matches!(self, Value::Text(_))
    }

    /// Whether this value is an integer.
    pub fn is_integer(&self) -> (r: bool)
        ensures
            r == (self@ is Integer),
    {
        matches!(self, Value::Integer(_))
    }

    /// Whether this value is a floating-point literal.
    pub fn is_float(&self) -> (r: bool)
        ensures
            r == (self@ is FloatLit),
    {
        matches!(self, Value::FloatLit(_))
    }

    /// Whether this value is a boolean.
    pub fn is_boolean(&self) -> (r: bool)
        ensures
            r == (self@ is Boolean),
    {
        matches!(self, Value::Boolean(_))
    }

    /// Whether this value is null.
    pub fn is_null(&self) -> (r: bool)
        ensures
            r == (self@ is Null),
    {
        matches!(self, Value::Null)
    }

    /// Whether this value is an array.
    pub fn is_array(&self) -> (r: bool)
        ensures
            r == (self@ is Array),
    {
        matches!(self, Value::Array(_))
    }

    /// Whether this value is an object.
    pub fn is_object(&self) -> (r: bool)
        ensures
            r == (self@ is Object),
    {
        matches!(self, Value::Object(_))
    }

    /// The text of a text scalar.
    pub fn as_str(&self) -> (r: Option<&str>)
        ensures
            match r {
                Some(s) => self@ == SpecValue::Text(s@),
                None => !(self@ is Text),
            },
    {
        match self {
            Value::Text(s) => Some(s.as_str()),
            _ => None,
        }
    }

    /// The value of an integer scalar.
    pub fn as_i64(&self) -> (r: Option<i64>)
        ensures
            match r {
                Some(i) => self@ == SpecValue::Integer(i),
                None => !(self@ is Integer),
            },
    {
        match self {
            Value::Integer(i) => Some(*i),
            _ => None,
        }
    }

    /// The source literal of a floating-point scalar.
    pub fn as_float_lit(&self) -> (r: Option<&str>)
        ensures
            match r {
                Some(s) => self@ == SpecValue::FloatLit(s@),
                None => !(self@ is FloatLit),
            },
    {
        match self {
            Value::FloatLit(s) => Some(s.as_str()),
            _ => None,
        }
    }

    /// The value of a boolean scalar.
    pub fn as_bool(&self) -> (r: Option<bool>)
        ensures
            match r {
                Some(b) => self@ == SpecValue::Boolean(b),
                None => !(self@ is Boolean),
            },
    {
        match self {
            Value::Boolean(b) => Some(*b),
            _ => None,
        }
    }

    /// The elements of an array.
    pub fn as_array(&self) -> (r: Option<&Vec<Value>>)
        ensures
            match r {
                Some(a) => self@ == SpecValue::Array(arr_model(a@)),
                None => !(self@ is Array),
            },
    {
        match self {
            Value::Array(a) => Some(a),
            _ => None,
        }
    }

    /// A scalar's text: a text or float literal verbatim, an integer in
    /// canonical decimal, a boolean keyword; null and containers have none.
    #[verifier::loop_isolation(false)]
    pub fn to_string(&self) -> (r: Option<String>)
        ensures
            match r {
                Some(s) => match self@ {
                    SpecValue::Text(t) => s@ == t,
                    SpecValue::Integer(i) => crate::literals::is_decimal_i64(s@, i as int),
                    SpecValue::FloatLit(t) => s@ == t,
                    SpecValue::Boolean(b) => s@ == (if b {
                        seq!['t', 'r', 'u', 'e']
                    } else {
                        seq!['f', 'a', 'l', 's', 'e']
                    }),
                    _ => false,
                },
                None => self@ is Null || self@ is Array || self@ is Object,
            },
    {
        match self {
            Value::Text(s) => Some(s.clone()),
            Value::FloatLit(s) => Some(s.clone()),
            Value::Integer(i) => {
                let neg = *i < 0;
                let mag: u64 = if *i == i64::MIN {
                    9223372036854775808u64
                } else if *i < 0 {
                    (-*i) as u64
                } else {
                    *i as u64
                };
                proof {
                    if neg {
                        assert(mag as int == -(*i as int));
                    } else {
                        assert(mag as int == *i as int);
                    }
                }
                let ds = crate::literals::u64_to_dec(mag);
                if neg {
                    let mut v: Vec<char> = Vec::new();
                    v.push('-');
                    let mut k: usize = 0;
                    while k < ds.len()
                        invariant
                            0 <= k <= ds@.len(),
                            v@ == seq!['-'] + ds@.take(k as int),
                        decreases ds@.len() - k,
                    {
                        v.push(ds[k]);
                        k = k + 1;
                        proof {
                            assert(v@ =~= seq!['-'] + ds@.take(k as int));
                        }
                    }
                    proof {
                        assert(ds@.take(ds@.len() as int) =~= ds@);
                        assert(v@.skip(1) =~= ds@);
                        assert(v@[0] == '-');
                    }
                    Some(crate::chars::string_of(&v))
                } else {
                    Some(crate::chars::string_of(&ds))
                }
            },
            Value::Boolean(b) => {
                let mut v: Vec<char> = Vec::new();
                if *b {
                    v.push('t');
                    v.push('r');
                    v.push('u');
                    v.push('e');
                    proof {
                        assert(v@ =~= seq!['t', 'r', 'u', 'e']);
                    }
                } else {
                    v.push('f');
                    v.push('a');
                    v.push('l');
                    v.push('s');
                    v.push('e');
                    proof {
                        assert(v@ =~= seq!['f', 'a', 'l', 's', 'e']);
                    }
                }
                Some(crate::chars::string_of(&v))
            },
            _ => None,
        }
    }

    /// The field list of an object.
    pub fn as_object(&self) -> (r: Option<&Vec<(String, Value)>>)
        ensures
            match r {
                Some(fields) => self@ == SpecValue::Object(obj_model(fields@)),
                None => !(self@ is Object),
            },
    {
        match self {
            Value::Object(fields) => Some(fields),
            _ => None,
        }
    }
}

/// The key views and value models of an object's field list, in order.
pub open spec fn entries_view(s: Seq<(String, Value)>) -> Seq<(Seq<char>, SpecValue)> {
    Seq::new(s.len(), |i: int| (s[i].0@, s[i].1.model()))
}

/// The first position holding key `k`, or the length if none does.
pub open spec fn entries_index(es: Seq<(Seq<char>, SpecValue)>, k: Seq<char>) -> int
    decreases es.len(),
{
    if es.len() == 0 {
        0
    } else if es[0].0 == k {
        0
    } else {
        1 + entries_index(es.skip(1), k)
    }
}

/// Bind `k` to `v` in an entry sequence: replaced in place where present,
/// appended otherwise — the insertion-order semantics of an object's field
/// list.
pub open spec fn entries_set(
    es: Seq<(Seq<char>, SpecValue)>,
    k: Seq<char>,
    v: SpecValue,
) -> Seq<(Seq<char>, SpecValue)> {
    let i = entries_index(es, k);
    if i < es.len() {
        es.update(i, (k, v))
    } else {
        es.push((k, v))
    }
}

/// Where `entries_index` points: at the first entry with the key, or past the
/// end when there is none.
pub proof fn lemma_entries_index_props(es: Seq<(Seq<char>, SpecValue)>, k: Seq<char>)
    ensures
        0 <= entries_index(es, k) <= es.len(),
        entries_index(es, k) < es.len() ==> es[entries_index(es, k)].0 == k,
        forall|j: int| 0 <= j < entries_index(es, k) ==> (#[trigger] es[j]).0 != k,
    decreases es.len(),
{
    if es.len() > 0 && es[0].0 != k {
        let t = es.skip(1);
        lemma_entries_index_props(t, k);
        let i = entries_index(es, k);
        assert(forall|j: int| 0 <= j < t.len() ==> (#[trigger] t[j]) == es[j + 1]);
        assert forall|j: int| 0 <= j < i implies (#[trigger] es[j]).0 != k by {
            if j > 0 {
                assert(t[j - 1] == es[j]);
            }
        }
    }
}

impl From<String> for Value {
    fn from(s: String) -> (r: Value) {
        Value::Text(s)
    }
}

impl vstd::std_specs::convert::FromSpecImpl<String> for Value {
    open spec fn obeys_from_spec() -> bool {
        true
    }

    open spec fn from_spec(s: String) -> Value {
        Value::Text(s)
    }
}

impl From<i64> for Value {
    fn from(i: i64) -> (r: Value) {
        Value::Integer(i)
    }
}

impl vstd::std_specs::convert::FromSpecImpl<i64> for Value {
    open spec fn obeys_from_spec() -> bool {
        true
    }

    open spec fn from_spec(i: i64) -> Value {
        Value::Integer(i)
    }
}

impl From<bool> for Value {
    fn from(b: bool) -> (r: Value) {
        Value::Boolean(b)
    }
}

impl vstd::std_specs::convert::FromSpecImpl<bool> for Value {
    open spec fn obeys_from_spec() -> bool {
        true
    }

    open spec fn from_spec(b: bool) -> Value {
        Value::Boolean(b)
    }
}

impl From<Vec<Value>> for Value {
    fn from(a: Vec<Value>) -> (r: Value) {
        Value::Array(a)
    }
}

impl vstd::std_specs::convert::FromSpecImpl<Vec<Value>> for Value {
    open spec fn obeys_from_spec() -> bool {
        true
    }

    open spec fn from_spec(a: Vec<Value>) -> Value {
        Value::Array(a)
    }
}

impl From<Vec<(String, Value)>> for Value {
    fn from(fields: Vec<(String, Value)>) -> (r: Value) {
        Value::Object(fields)
    }
}

impl vstd::std_specs::convert::FromSpecImpl<Vec<(String, Value)>> for Value {
    open spec fn obeys_from_spec() -> bool {
        true
    }

    open spec fn from_spec(fields: Vec<(String, Value)>) -> Value {
        Value::Object(fields)
    }
}

/// Deep copy of an object's field list, preserving the model.
pub fn clone_fields(fields: &Vec<(String, Value)>) -> (r: Vec<(String, Value)>)
    ensures
        obj_model(r@) == obj_model(fields@),
        obj_wf(fields@) ==> obj_wf(r@),
{
    let mut out: Vec<(String, Value)> = Vec::new();
    let mut i: usize = 0;
    while i < fields.len()
        invariant
            0 <= i <= fields@.len(),
            out@.len() == i,
            forall|j: int| 0 <= j < i ==> (#[trigger] out@[j].0)@ == fields@[j].0@,
            forall|j: int| 0 <= j < i ==> (#[trigger] out@[j].1).model() == fields@[j].1.model(),
            forall|j: int| 0 <= j < i ==> fields@[j].1.wf() ==> (#[trigger] out@[j].1).wf(),
        decreases fields@.len() - i,
    {
        let k = fields[i].0.clone();
        let v = fields[i].1.clone();
        out.push((k, v));
        i = i + 1;
    }
    proof {
        lemma_obj_model_congruent(out@, fields@);
        if obj_wf(fields@) {
            assert forall|i1: int, j1: int|
                0 <= i1 < j1 < out@.len() implies (#[trigger] out@[i1].0)@ != (
            #[trigger] out@[j1].0)@ by {
                assert(fields@[i1].0@ != fields@[j1].0@);
            }
            assert forall|j: int| 0 <= j < out@.len() implies (#[trigger] out@[j].1).wf() by {
                assert(fields@[j].1.wf());
            }
        }
    }
    out
}

/// Look a key up in an object's field list.
pub fn object_get<'a>(fields: &'a Vec<(String, Value)>, key: &String) -> (r: Option<&'a Value>)
    requires
        obj_keys_unique(fields@),
    ensures
        match r {
            Some(v) => obj_model(fields@).dom().contains(key@) && v@ == obj_model(fields@)[key@]
                && (obj_wf(fields@) ==> v.wf()),
            None => !obj_model(fields@).dom().contains(key@),
        },
{
    let ghost s = fields@;
    let mut i: usize = 0;
    while i < fields.len()
        invariant
            0 <= i <= s.len(),
            s == fields@,
            obj_keys_unique(s),
            forall|j: int| 0 <= j < i ==> (#[trigger] s[j].0)@ != key@,
        decreases s.len() - i,
    {
        if fields[i].0 == *key {
            proof {
                lemma_obj_model_get(s, key@, i as int);
                if obj_wf(s) {
                    assert(s[i as int].1.wf());
                }
            }
            return Some(&fields[i].1);
        }
        i = i + 1;
    }
    proof {
        lemma_obj_model_contains(s, key@);
    }
    None
}

/// A copy of the field list with `key` bound to `val`: the entry for `key`
/// is replaced if present, appended otherwise.
pub fn object_set(fields: &Vec<(String, Value)>, key: &String, val: Value) -> (r: Vec<
    (String, Value),
>)
    requires
        obj_wf(fields@),
        val.wf(),
    ensures
        obj_model(r@) == obj_model(fields@).insert(key@, val@),
        entries_view(r@) == entries_set(entries_view(fields@), key@, val@),
        obj_wf(r@),
{
    let ghost s = fields@;
    let mut found: Option<usize> = None;
    let mut i: usize = 0;
    while i < fields.len()
        invariant
            0 <= i <= s.len(),
            s == fields@,
            obj_keys_unique(s),
            match found {
                Some(fi) => fi < i && s[fi as int].0@ == key@,
                None => forall|j: int| 0 <= j < i ==> (#[trigger] s[j].0)@ != key@,
            },
        decreases s.len() - i,
    {
        if found.is_none() && fields[i].0 == *key {
            found = Some(i);
        }
        i = i + 1;
    }
    let mut out: Vec<(String, Value)> = Vec::new();
    let mut j: usize = 0;
    while j < fields.len()
        invariant
            0 <= j <= s.len(),
            s == fields@,
            obj_wf(s),
            val.wf(),
            match found {
                Some(fi) => fi < s.len() && s[fi as int].0@ == key@,
                None => forall|jj: int| 0 <= jj < s.len() ==> (#[trigger] s[jj].0)@ != key@,
            },
            out@.len() == j,
            forall|jj: int|
                0 <= jj < j ==> (#[trigger] out@[jj].0)@ == (if found == Some(jj as usize) {
                    key@
                } else {
                    s[jj].0@
                }),
            forall|jj: int|
                0 <= jj < j ==> (#[trigger] out@[jj].1).model() == (if found == Some(jj as usize) {
                    val@
                } else {
                    s[jj].1.model()
                }),
            forall|jj: int| 0 <= jj < j ==> (#[trigger] out@[jj].1).wf(),
        decreases s.len() - j,
    {
        let replace_here = match found {
            Some(fi) => fi == j,
            None => false,
        };
        if replace_here {
            out.push((key.clone(), val.clone()));
        } else {
            let k = fields[j].0.clone();
            let v = fields[j].1.clone();
            out.push((k, v));
        }
        j = j + 1;
    }
    match found {
        Some(fi) => {
            proof {
                let es = entries_view(s);
                lemma_entries_index_props(es, key@);
                let idx = entries_index(es, key@);
                assert(es[fi as int].0 == key@);
                if idx < fi as int {
                    assert(es[idx].0 == key@);
                    assert(s[idx].0@ == key@ && s[fi as int].0@ == key@);
                    assert(false);
                }
                if idx > fi as int {
                    assert(es[fi as int].0 != key@);
                    assert(false);
                }
                assert(entries_index(entries_view(s), key@) == fi as int);
                assert(entries_view(out@) =~= entries_view(s).update(
                    fi as int,
                    (key@, val@),
                ));
                let e = (*key, val);
                assert forall|jj: int| 0 <= jj < s.len() implies (#[trigger] out@[jj].0)@
                    == s.update(fi as int, e)[jj].0@ && out@[jj].1.model() == s.update(
                    fi as int,
                    e,
                )[jj].1.model() by {}
                lemma_obj_model_congruent(out@, s.update(fi as int, e));
                assert forall|jx: int| fi < jx < s.len() implies (#[trigger] s[jx].0)@ != e.0@ by {}
                lemma_obj_model_update(s, fi as int, e);
                assert forall|i1: int, j1: int| 0 <= i1 < j1 < out@.len() implies (
                #[trigger] out@[i1].0)@ != (#[trigger] out@[j1].0)@ by {}
            }
            out
        },
        None => {
            out.push((key.clone(), val));
            proof {
                lemma_entries_index_props(entries_view(s), key@);
                assert(entries_index(entries_view(s), key@) == s.len());
                assert(entries_view(out@) =~= entries_view(s).push((key@, val@)));
                assert(out@.subrange(0, out@.len() - 1) =~= out@.take(s.len() as int));
                lemma_obj_model_congruent(out@.take(s.len() as int), s);
                assert(obj_model(out@) == obj_model(s).insert(key@, val@));
                assert forall|i1: int, j1: int| 0 <= i1 < j1 < out@.len() implies (
                #[trigger] out@[i1].0)@ != (#[trigger] out@[j1].0)@ by {}
            }
            out
        },
    }
}

} // verus!
