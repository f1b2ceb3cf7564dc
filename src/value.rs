use vstd::prelude::*;

verus! {

/// A number as it is written in JSON text, kept exactly: its sign, the digits
/// before and after the decimal point, and the decimal exponent.
///
/// `integer`, `fraction` and `exponent` hold ASCII digits only; `exponent` is
/// empty when the literal has no exponent part.
#[derive(Debug, PartialEq)]
pub struct Number {
    pub negative: bool,
    pub integer: String,
    pub fraction: String,
    pub exponent_negative: bool,
    pub exponent: String,
}

/// The mathematical form of a `Number`.
pub struct NumberModel {
    pub negative: bool,
    pub integer: Seq<char>,
    pub fraction: Seq<char>,
    pub exponent_negative: bool,
    pub exponent: Seq<char>,
}

impl View for Number {
    type V = NumberModel;

    open spec fn view(&self) -> NumberModel {
        NumberModel {
            negative: self.negative,
            integer: self.integer@,
            fraction: self.fraction@,
            exponent_negative: self.exponent_negative,
            exponent: self.exponent@,
        }
    }
}

impl Number {
    /// A copy of this number.
    pub fn copy(&self) -> (r: Number)
        ensures
            r@ == self@,
    {
        Number {
            negative: self.negative,
            integer: self.integer.clone(),
            fraction: self.fraction.clone(),
            exponent_negative: self.exponent_negative,
            exponent: self.exponent.clone(),
        }
    }
}

/// A parsed JSON document.
///
/// An object holds its entries in the order in which their keys first
/// appeared; no key occurs twice. Two values are equal when they have the
/// same shape, and objects the same entries in the same order.
#[derive(Debug, PartialEq)]
pub enum Value {
    Null,
    Boolean(bool),
    Number(Number),
    String(String),
    Array(Vec<Value>),
    Object(Vec<(String, Value)>),
}

/// The mathematical form of a `Value`. An object is the sequence of its
/// key/value pairs, in the order in which each key first appeared.
pub enum Json {
    Null,
    Boolean(bool),
    Number(NumberModel),
    Str(Seq<char>),
    Array(Seq<Json>),
    Object(Seq<(Seq<char>, Json)>),
}

impl Json {
    /// No object, at any depth, holds a key twice.
    pub open spec fn wf(self) -> bool
        decreases self,
    {
        match self {
            Json::Array(a) => forall|i: int| 0 <= i < a.len() ==> #[trigger] a[i].wf(),
            Json::Object(p) => pairs_unique(p) && forall|i: int|
                0 <= i < p.len() ==> #[trigger] p[i].1.wf(),
            _ => true,
        }
    }
}

/// The map that a list of key/value pairs denotes (a later pair wins).
pub open spec fn pairs_to_map(e: Seq<(Seq<char>, Json)>) -> Map<Seq<char>, Json>
    decreases e.len(),
{
    if e.len() == 0 {
        Map::empty()
    } else {
        pairs_to_map(e.drop_last()).insert(e.last().0, e.last().1)
    }
}

/// The models of a sequence of values, in order.
pub open spec fn element_views(a: Seq<Value>) -> Seq<Json> {
    Seq::new(a.len(), |i: int| a[i].view())
}

/// The models of a sequence of object entries, in order.
pub open spec fn entry_views(e: Seq<(String, Value)>) -> Seq<(Seq<char>, Json)> {
    Seq::new(e.len(), |i: int| (e[i].0@, e[i].1.view()))
}

/// No key occurs twice.
pub open spec fn keys_unique(e: Seq<(String, Value)>) -> bool {
    forall|i: int, j: int| 0 <= i < j < e.len() ==> #[trigger] e[i].0@ != #[trigger] e[j].0@
}

pub proof fn lemma_array_view(a: Vec<Value>)
    ensures
        Value::Array(a).view() == Json::Array(element_views(a@)),
{
    assert(Value::Array(a).view()->Array_0 =~= element_views(a@));
}

pub proof fn lemma_object_view(o: Vec<(String, Value)>)
    ensures
        Value::Object(o).view() == Json::Object(entry_views(o@)),
{
    assert(Value::Object(o).view()->Object_0 =~= entry_views(o@));
}

/// No key occurs twice among the pairs.
pub open spec fn pairs_unique(p: Seq<(Seq<char>, Json)>) -> bool {
    forall|i: int, j: int| 0 <= i < j < p.len() ==> #[trigger] p[i].0 != #[trigger] p[j].0
}

/// Sets key `k` to `v`: where `k` is present its value is replaced in place,
/// else the pair is appended.
pub open spec fn upsert(p: Seq<(Seq<char>, Json)>, k: Seq<char>, v: Json) -> Seq<(Seq<char>, Json)> {
    if exists|i: int| 0 <= i < p.len() && #[trigger] p[i].0 == k {
        p.update(choose|i: int| 0 <= i < p.len() && #[trigger] p[i].0 == k, (k, v))
    } else {
        p.push((k, v))
    }
}

/// Replacing the value of a key that no other pair holds is inserting it.
pub proof fn lemma_pairs_update(p: Seq<(Seq<char>, Json)>, idx: int, v: Json)
    requires
        0 <= idx < p.len(),
        forall|j: int| 0 <= j < p.len() && j != idx ==> #[trigger] p[j].0 != p[idx].0,
    ensures
        pairs_to_map(p.update(idx, (p[idx].0, v))) == pairs_to_map(p).insert(p[idx].0, v),
    decreases p.len(),
{
    let k = p[idx].0;
    let q = p.update(idx, (k, v));
    if idx == p.len() - 1 {
        assert(q.drop_last() =~= p.drop_last());
        assert(pairs_to_map(q) =~= pairs_to_map(p).insert(k, v));
    } else {
        let d = p.drop_last();
        assert(q.drop_last() =~= d.update(idx, (k, v)));
        assert(d[idx].0 == k);
        assert forall|j: int| 0 <= j < d.len() && j != idx implies #[trigger] d[j].0 != d[idx].0 by {
            assert(p[j].0 != k);
        }
        lemma_pairs_update(d, idx, v);
        assert(p.last().0 != k);
        assert(pairs_to_map(q) =~= pairs_to_map(p).insert(k, v));
    }
}

impl Value {
    pub open spec fn view(&self) -> Json
        decreases self,
    {
        match self {
            Value::Null => Json::Null,
            Value::Boolean(b) => Json::Boolean(*b),
            Value::Number(n) => Json::Number(n@),
            Value::String(s) => Json::Str(s@),
            Value::Array(a) => {
                Json::Array(
                    Seq::new(
                        a@.len(),
                        |i: int|
                            if 0 <= i < a@.len() {
                                a@[i].view()
                            } else {
                                Json::Null
                            },
                    ),
                )
            },
            Value::Object(o) => Json::Object(
                (Seq::new(o@.len(), |i: int|
                    if 0 <= i < o@.len() {
                        (o@[i].0@, o@[i].1.view())
                    } else {
                        (Seq::empty(), Json::Null)
                    })),
            ),
        }
    }
}

} // verus!
