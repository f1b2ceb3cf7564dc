use std::collections::{HashMap, HashSet};
use std::hash::Hash;
use vstd::prelude::*;
use vstd::std_specs::hash::{axiom_random_state_builds_valid_hashers, obeys_key_model};

use crate::error::{DecodeError, JSONError};
use crate::parser::{matches_word, parse, parse_spec};
use crate::value::{entry_views, lemma_array_view, lemma_object_view, Json, Number, Value};

verus! {

/// Decoding from a JSON value into a type of the caller's choosing.
///
/// A type that states how it decodes sets `specified` and gives `decodable`
/// and `decodes_to`; `from_json` is then held to them. The library's own
/// impls all do. A type that keeps the defaults promises nothing.
pub trait FromJSON: Sized {
    /// Whether this type states how it decodes.
    open spec fn specified() -> bool {
        false
    }

    /// Whether `v` decodes into a value of this type.
    open spec fn decodable(v: Json) -> bool {
        false
    }

    /// Whether `r` is what `v` decodes into.
    open spec fn decodes_to(v: Json, r: Self) -> bool {
        false
    }

    fn from_json(v: &Value) -> (r: Result<Self, DecodeError>)
        ensures
            Self::specified() ==> (r is Ok <==> Self::decodable(v.view())),
            Self::specified() ==> (r matches Ok(x) ==> Self::decodes_to(v.view(), x)),
    ;
}

/// The value of the first pair with key `k`.
pub open spec fn lookup(p: Seq<(Seq<char>, Json)>, k: Seq<char>) -> Option<Json>
    decreases p.len(),
{
    if p.len() == 0 {
        None
    } else if p[0].0 == k {
        Some(p[0].1)
    } else {
        lookup(p.drop_first(), k)
    }
}

impl Value {
    pub fn as_string(&self) -> (r: Result<&String, DecodeError>)
        ensures
            r is Ok <==> self is String,
            r matches Ok(s) ==> self.view() == Json::Str(s@),
    {
        if let Value::String(s) = self {
            Ok(s)
        } else {
            Err(DecodeError)
        }
    }

    pub fn as_number(&self) -> (r: Result<&Number, DecodeError>)
        ensures
            r is Ok <==> self is Number,
            r matches Ok(n) ==> self.view() == Json::Number(n@),
    {
        if let Value::Number(n) = self {
            Ok(n)
        } else {
            Err(DecodeError)
        }
    }

    pub fn as_array(&self) -> (r: Result<&Vec<Value>, DecodeError>)
        ensures
            r is Ok <==> self is Array,
            r matches Ok(a) ==> *self == Value::Array(*a),
    {
        if let Value::Array(a) = self {
            Ok(a)
        } else {
            Err(DecodeError)
        }
    }

    pub fn as_object(&self) -> (r: Result<&Vec<(String, Value)>, DecodeError>)
        ensures
            r is Ok <==> self is Object,
            r matches Ok(o) ==> *self == Value::Object(*o),
    {
        if let Value::Object(o) = self {
            Ok(o)
        } else {
            Err(DecodeError)
        }
    }
}

/// Finds the value of `key` among the entries of an object.
pub fn find_field<'a>(o: &'a Vec<(String, Value)>, key: &str) -> (r: Option<&'a Value>)
    ensures
        match lookup(entry_views(o@), key@) {
            None => r is None,
            Some(v) => r matches Some(x) && x.view() == v,
        },
{
    let ghost p = entry_views(o@);
    proof {
        assert(p.subrange(0, p.len() as int) =~= p);
    }
    let mut i: usize = 0;
    while i < o.len()
        invariant
            i <= o@.len(),
            p == entry_views(o@),
            lookup(p, key@) == lookup(p.subrange(i as int, p.len() as int), key@),
        decreases o@.len() - i,
    {
        let ghost q = p.subrange(i as int, p.len() as int);
        proof {
            assert(q.drop_first() =~= p.subrange(i + 1, p.len() as int));
        }
        if matches_word(&o[i].0, key) {
            return Some(&o[i].1);
        }
        i += 1;
    }
    None
}

/// Decodes the field `key` of an object; a missing field is an error.
pub fn extract_field<T: FromJSON>(o: &Vec<(String, Value)>, key: &str) -> (r: Result<T, DecodeError>)
    ensures
        match lookup(entry_views(o@), key@) {
            None => r is Err,
            Some(v) => T::specified() ==> ((r is Ok <==> T::decodable(v)) && (r matches Ok(x)
                ==> T::decodes_to(v, x))),
        },
{
    match find_field(o, key) {
        None => Err(DecodeError),
        Some(v) => T::from_json(v),
    }
}

/// Decodes the field `key` of an object if it is there; a missing field
/// gives `None`.
pub fn extract_optional_field<T: FromJSON>(o: &Vec<(String, Value)>, key: &str) -> (r: Result<
    Option<T>,
    DecodeError,
>)
    ensures
        match lookup(entry_views(o@), key@) {
            None => r == Ok::<Option<T>, DecodeError>(None),
            Some(v) => (r matches Ok(x) ==> x is Some) && (T::specified() ==> ((r is Ok
                <==> T::decodable(v)) && (r matches Ok(x) ==> (x matches Some(y) && T::decodes_to(
                v,
                y,
            ))))),
        },
{
    match find_field(o, key) {
        None => Ok(None),
        Some(v) => match T::from_json(v) {
            Ok(x) => Ok(Some(x)),
            Err(e) => Err(e),
        },
    }
}

impl FromJSON for String {
    open spec fn specified() -> bool {
        true
    }

    open spec fn decodable(v: Json) -> bool {
        v is Str
    }

    open spec fn decodes_to(v: Json, r: String) -> bool {
        v == Json::Str(r@)
    }

    fn from_json(v: &Value) -> (r: Result<String, DecodeError>) {
        match v.as_string() {
            Ok(s) => Ok(s.clone()),
            Err(e) => Err(e),
        }
    }
}

impl<T: FromJSON> FromJSON for Option<T> {
    open spec fn specified() -> bool {
        T::specified()
    }

    open spec fn decodable(v: Json) -> bool {
        v is Null || T::decodable(v)
    }

    open spec fn decodes_to(v: Json, r: Option<T>) -> bool {
        if v is Null {
            r is None
        } else {
            r matches Some(x) && T::decodes_to(v, x)
        }
    }

    fn from_json(v: &Value) -> (r: Result<Option<T>, DecodeError>) {
        if let Value::Null = v {
            Ok(None)
        } else {
            match T::from_json(v) {
                Ok(x) => Ok(Some(x)),
                Err(e) => Err(e),
            }
        }
    }
}

impl<T: FromJSON> FromJSON for Vec<T> {
    open spec fn specified() -> bool {
        T::specified()
    }

    open spec fn decodable(v: Json) -> bool {
        &&& v is Array
        &&& forall|i: int| 0 <= i < v->Array_0.len() ==> #[trigger] T::decodable(v->Array_0[i])
    }

    open spec fn decodes_to(v: Json, r: Vec<T>) -> bool {
        &&& v is Array
        &&& r@.len() == v->Array_0.len()
        &&& forall|i: int|
            0 <= i < r@.len() ==> #[trigger] T::decodes_to(v->Array_0[i], r@[i])
    }

    fn from_json(v: &Value) -> (r: Result<Vec<T>, DecodeError>) {
        let a = match v.as_array() {
            Ok(a) => a,
            Err(e) => return Err(e),
        };
        proof {
            lemma_array_view(*a);
        }
        let ghost m = v.view()->Array_0;
        let mut res: Vec<T> = Vec::new();
        let mut i: usize = 0;
        while i < a.len()
            invariant
                i <= a@.len(),
                m.len() == a@.len(),
                v.view() == Json::Array(m),
                forall|j: int| 0 <= j < a@.len() ==> #[trigger] m[j] == a@[j].view(),
                res@.len() == i,
                T::specified() ==> forall|j: int| 0 <= j < i ==> #[trigger] T::decodable(m[j]),
                T::specified() ==> forall|j: int|
                    0 <= j < i ==> #[trigger] T::decodes_to(m[j], res@[j]),
            decreases a@.len() - i,
        {
            match T::from_json(&a[i]) {
                Ok(x) => {
                    res.push(x);
                },
                Err(e) => {
                    proof {
                        if T::specified() {
                            assert(!T::decodable(m[i as int]));
                            assert(v.view()->Array_0[i as int] == m[i as int]);
                            assert(!<Vec<T> as FromJSON>::decodable(v.view()));
                        }
                    }
                    return Err(e);
                },
            }
            i += 1;
        }
        Ok(res)
    }
}

impl FromJSON for Number {
    open spec fn specified() -> bool {
        true
    }

    open spec fn decodable(v: Json) -> bool {
        v is Number
    }

    open spec fn decodes_to(v: Json, r: Number) -> bool {
        v == Json::Number(r@)
    }

    fn from_json(v: &Value) -> (r: Result<Number, DecodeError>) {
        match v.as_number() {
            Ok(n) => Ok(n.copy()),
            Err(e) => Err(e),
        }
    }
}

impl FromJSON for u32 {
    open spec fn specified() -> bool {
        true
    }

    open spec fn decodable(v: Json) -> bool {
        v is Number && v->Number_0.wf() && v->Number_0.is_integral()
    }

    open spec fn decodes_to(v: Json, r: u32) -> bool {
        v is Number && r == v->Number_0.to_u32()
    }

    fn from_json(v: &Value) -> (r: Result<u32, DecodeError>) {
        let n = match v.as_number() {
            Ok(n) => n,
            Err(e) => return Err(e),
        };
        match n.to_u32() {
            Some(x) => Ok(x),
            None => Err(DecodeError),
        }
    }
}

/// Every member of `s` is what some item decodes into, and every item
/// decodes into some member.
pub open spec fn set_decodes<T: FromJSON>(items: Seq<Json>, s: Set<T>) -> bool {
    &&& forall|x: T| #[trigger]
        s.contains(x) ==> exists|i: int| 0 <= i < items.len() && #[trigger] T::decodes_to(items[i], x)
    &&& forall|i: int|
        0 <= i < items.len() ==> exists|x: T| #[trigger] s.contains(x) && T::decodes_to(
            #[trigger] items[i],
            x,
        )
}

/// Every entry of `m` is what some pair with that key decodes into, and
/// every pair's key is a key of `m`.
pub open spec fn map_decodes<V: FromJSON>(pairs: Seq<(Seq<char>, Json)>, m: Map<String, V>) -> bool {
    &&& forall|k: String| #[trigger]
        m.contains_key(k) ==> exists|i: int|
            0 <= i < pairs.len() && pairs[i].0 == k@ && #[trigger] V::decodes_to(pairs[i].1, m[k])
    &&& forall|i: int|
        0 <= i < pairs.len() ==> exists|k: String| #[trigger] m.contains_key(k) && k@ == (
        #[trigger] pairs[i]).0
}

/// A set is read from an array: each element is decoded and equal ones
/// merge. Which values the set holds is stated where the element type's
/// hashing is known to behave (`obeys_key_model`).
impl<T: FromJSON + Eq + Hash> FromJSON for HashSet<T> {
    open spec fn specified() -> bool {
        T::specified()
    }

    open spec fn decodable(v: Json) -> bool {
        &&& v is Array
        &&& forall|i: int| 0 <= i < v->Array_0.len() ==> #[trigger] T::decodable(v->Array_0[i])
    }

    open spec fn decodes_to(v: Json, r: HashSet<T>) -> bool {
        &&& v is Array
        &&& obeys_key_model::<T>() ==> set_decodes(v->Array_0, r@)
    }

    fn from_json(v: &Value) -> (r: Result<HashSet<T>, DecodeError>) {
        broadcast use axiom_random_state_builds_valid_hashers;

        let a = match v.as_array() {
            Ok(a) => a,
            Err(e) => return Err(e),
        };
        proof {
            lemma_array_view(*a);
        }
        let ghost m = v.view()->Array_0;
        let mut res: HashSet<T> = HashSet::new();
        let mut i: usize = 0;
        proof {
            assert(m.take(0) =~= Seq::<Json>::empty());
        }
        while i < a.len()
            invariant
                i <= a@.len(),
                m.len() == a@.len(),
                v.view() == Json::Array(m),
                forall|j: int| 0 <= j < a@.len() ==> #[trigger] m[j] == a@[j].view(),
                T::specified() ==> forall|j: int| 0 <= j < i ==> #[trigger] T::decodable(m[j]),
                T::specified() && obeys_key_model::<T>() ==> set_decodes(m.take(i as int), res@),
            decreases a@.len() - i,
        {
            match T::from_json(&a[i]) {
                Ok(x) => {
                    let ghost old_res = res@;
                    let ghost xv = x;
                    res.insert(x);
                    proof {
                        if T::specified() && obeys_key_model::<T>() {
                            lemma_set_decodes_step(m, i as int, old_res, xv);
                        }
                    }
                },
                Err(e) => {
                    proof {
                        if T::specified() {
                            assert(!T::decodable(m[i as int]));
                            assert(v.view()->Array_0[i as int] == m[i as int]);
                        }
                    }
                    return Err(e);
                },
            }
            i += 1;
        }
        proof {
            assert(m.take(i as int) =~= m);
        }
        Ok(res)
    }
}

proof fn lemma_set_decodes_step<T: FromJSON>(m: Seq<Json>, i: int, s: Set<T>, x: T)
    requires
        0 <= i < m.len(),
        set_decodes(m.take(i), s),
        T::decodes_to(m[i], x),
    ensures
        set_decodes(m.take(i + 1), s.insert(x)),
{
    let p = m.take(i);
    let q = m.take(i + 1);
    assert forall|y: T| #[trigger] s.insert(x).contains(y) implies exists|j: int|
        0 <= j < q.len() && #[trigger] T::decodes_to(q[j], y) by {
        if y == x {
            assert(q[i] == m[i]);
            assert(T::decodes_to(q[i], y));
        } else {
            let j = choose|j: int| 0 <= j < p.len() && #[trigger] T::decodes_to(p[j], y);
            assert(q[j] == p[j]);
        }
    }
    assert forall|j: int| 0 <= j < q.len() implies exists|y: T|
        #[trigger] s.insert(x).contains(y) && T::decodes_to(#[trigger] q[j], y) by {
        if j == i {
            assert(q[j] == m[i]);
            assert(s.insert(x).contains(x) && T::decodes_to(q[j], x));
        } else {
            assert(q[j] == p[j]);
            let y = choose|y: T| #[trigger] s.contains(y) && T::decodes_to(#[trigger] p[j], y);
            assert(s.insert(x).contains(y));
        }
    }
}

proof fn lemma_map_decodes_step<V: FromJSON>(
    p: Seq<(Seq<char>, Json)>,
    i: int,
    m: Map<String, V>,
    k: String,
    x: V,
)
    requires
        0 <= i < p.len(),
        map_decodes(p.take(i), m),
        p[i].0 == k@,
        V::decodes_to(p[i].1, x),
    ensures
        map_decodes(p.take(i + 1), m.insert(k, x)),
{
    let a = p.take(i);
    let b = p.take(i + 1);
    let n = m.insert(k, x);
    assert forall|c: String| #[trigger] n.contains_key(c) implies exists|j: int|
        0 <= j < b.len() && b[j].0 == c@ && #[trigger] V::decodes_to(b[j].1, n[c]) by {
        if c == k {
            assert(b[i] == p[i]);
            assert(V::decodes_to(b[i].1, n[c]));
        } else {
            let j = choose|j: int| 0 <= j < a.len() && a[j].0 == c@ && #[trigger] V::decodes_to(a[j].1, m[c]);
            assert(b[j] == a[j]);
            assert(n[c] == m[c]);
        }
    }
    assert forall|j: int| 0 <= j < b.len() implies exists|c: String|
        #[trigger] n.contains_key(c) && c@ == (#[trigger] b[j]).0 by {
        if j == i {
            assert(b[j] == p[i]);
            assert(n.contains_key(k) && k@ == b[j].0);
        } else {
            assert(b[j] == a[j]);
            let c = choose|c: String| #[trigger] m.contains_key(c) && c@ == (#[trigger] a[j]).0;
            assert(n.contains_key(c));
        }
    }
}

/// A map is read from an object whose keys are kept as strings and whose
/// values are each decoded. Which entries the map holds is stated where the
/// hashing of strings is known to behave (`obeys_key_model`).
impl<V: FromJSON> FromJSON for HashMap<String, V> {
    open spec fn specified() -> bool {
        V::specified()
    }

    open spec fn decodable(v: Json) -> bool {
        &&& v is Object
        &&& forall|i: int| 0 <= i < v->Object_0.len() ==> #[trigger] V::decodable(v->Object_0[i].1)
    }

    open spec fn decodes_to(v: Json, r: HashMap<String, V>) -> bool {
        &&& v is Object
        &&& obeys_key_model::<String>() ==> map_decodes(v->Object_0, r@)
    }

    fn from_json(v: &Value) -> (r: Result<HashMap<String, V>, DecodeError>) {
        broadcast use axiom_random_state_builds_valid_hashers;

        let o = match v.as_object() {
            Ok(o) => o,
            Err(e) => return Err(e),
        };
        proof {
            lemma_object_view(*o);
        }
        let ghost p = v.view()->Object_0;
        let mut res: HashMap<String, V> = HashMap::new();
        let mut i: usize = 0;
        proof {
            assert(p.take(0) =~= Seq::<(Seq<char>, Json)>::empty());
        }
        while i < o.len()
            invariant
                i <= o@.len(),
                p == entry_views(o@),
                v.view() == Json::Object(p),
                V::specified() ==> forall|j: int| 0 <= j < i ==> #[trigger] V::decodable(p[j].1),
                V::specified() && obeys_key_model::<String>() ==> map_decodes(p.take(i as int), res@),
            decreases o@.len() - i,
        {
            let key = o[i].0.clone();
            match V::from_json(&o[i].1) {
                Ok(x) => {
                    let ghost old_res = res@;
                    let ghost kv = key;
                    let ghost xv = x;
                    res.insert(key, x);
                    proof {
                        if V::specified() && obeys_key_model::<String>() {
                            assert(p[i as int] == (o@[i as int].0@, o@[i as int].1.view()));
                            lemma_map_decodes_step(p, i as int, old_res, kv, xv);
                        }
                    }
                },
                Err(e) => {
                    proof {
                        if V::specified() {
                            assert(p[i as int] == (o@[i as int].0@, o@[i as int].1.view()));
                            assert(!V::decodable(p[i as int].1));
                            assert(v.view()->Object_0[i as int] == p[i as int]);
                        }
                    }
                    return Err(e);
                },
            }
            i += 1;
        }
        proof {
            assert(p.take(i as int) =~= p);
        }
        Ok(res)
    }
}

/// Parses `s` and decodes the value into `T`.
pub fn decode<T: FromJSON>(s: &str) -> (r: Result<T, JSONError>)
    ensures
        match parse_spec(s@) {
            Err(m) => r matches Err(JSONError::ParseError(msg)) && msg@ == m,
            Ok(v) => (r is Err ==> r == Err::<T, JSONError>(JSONError::DecodeError)) && (
            T::specified() ==> ((r is Ok <==> T::decodable(v)) && (r matches Ok(x)
                ==> T::decodes_to(v, x)))),
        },
{
    let v = match parse(s) {
        Ok(v) => v,
        Err(e) => return Err(JSONError::from(e)),
    };
    match T::from_json(&v) {
        Ok(x) => Ok(x),
        Err(e) => Err(JSONError::from(e)),
    }
}

} // verus!
