//! The JSON value type and its mathematical model.
use vstd::prelude::*;

verus! {

/// The mathematical model of a JSON value: strings as `char` sequences,
/// containers as sequences, object members in document order.
pub enum JValue {
    Null,
    Bool(bool),
    Int(i64),
    /// A float, held as the text that stands for it.
    Float(Seq<char>),
    Str(Seq<char>),
    Array(Seq<JValue>),
    Object(Seq<(Seq<char>, JValue)>),
}

/// A JSON number: an `i64` when the lexeme is integral and fits, else a
/// float, held as the text that stands for the float (its lexeme as turned
/// by the caller's float rule at parse time, and written out verbatim).
#[derive(Debug, PartialEq)]
pub enum Number {
    Int(i64),
    /// A float, as its text. `==` on values compares these texts, so two
    /// floats that denote the same `f64` through different texts (`0.0` and
    /// `-0.0`) are unequal here, and a non-finite float held as `null`
    /// equals itself.
    Float(String),
}

/// A parsed JSON value.
#[derive(Debug, PartialEq)]
pub enum Value {
    Null,
    Bool(bool),
    Number(Number),
    String(String),
    Array(Vec<Value>),
    /// Key/value pairs in document order; duplicates are preserved.
    Object(Vec<(String, Value)>),
}

pub open spec fn items_model(items: Seq<Value>) -> Seq<JValue>
    decreases items,
{
    if items.len() == 0 {
        Seq::empty()
    } else {
        items_model(items.drop_last()).push(items.last().model())
    }
}

pub open spec fn members_model(members: Seq<(String, Value)>) -> Seq<(Seq<char>, JValue)>
    decreases members,
{
    if members.len() == 0 {
        Seq::empty()
    } else {
        members_model(members.drop_last()).push((members.last().0@, members.last().1.model()))
    }
}

impl Value {
    /// The model of this value.
    pub open spec fn model(self) -> JValue
        decreases self,
    {
        match self {
            Value::Null => JValue::Null,
            Value::Bool(b) => JValue::Bool(b),
            Value::Number(Number::Int(i)) => JValue::Int(i),
            Value::Number(Number::Float(t)) => JValue::Float(t@),
            Value::String(s) => JValue::Str(s@),
            Value::Array(items) => JValue::Array(items_model(items@)),
            Value::Object(members) => JValue::Object(members_model(members@)),
        }
    }
}

pub proof fn lemma_items_model(items: Seq<Value>)
    ensures
        items_model(items).len() == items.len(),
        forall|k: int| 0 <= k < items.len() ==> #[trigger] items_model(items)[k] == items[k].model(),
    decreases items.len(),
{
    if items.len() > 0 {
        lemma_items_model(items.drop_last());
    }
}

pub proof fn lemma_members_model(members: Seq<(String, Value)>)
    ensures
        members_model(members).len() == members.len(),
        forall|k: int|
            0 <= k < members.len() ==> #[trigger] members_model(members)[k] == (
            members[k].0@,
            members[k].1.model(),
        ),
    decreases members.len(),
{
    if members.len() > 0 {
        lemma_members_model(members.drop_last());
    }
}

/// The value of the last member named `key`, if any.
pub open spec fn lookup(members: Seq<(Seq<char>, JValue)>, key: Seq<char>) -> Option<JValue>
    decreases members.len(),
{
    if members.len() == 0 {
        None
    } else if members.last().0 == key {
        Some(members.last().1)
    } else {
        lookup(members.drop_last(), key)
    }
}

pub open spec fn opt_model(r: Option<&Value>) -> Option<JValue> {
    match r {
        Some(x) => Some(x.model()),
        None => None,
    }
}

impl Value {
    pub fn as_bool(&self) -> (r: Option<bool>)
        ensures
            r == match self.model() {
                JValue::Bool(b) => Some(b),
                _ => None::<bool>,
            },
    {
        match self {
            Value::Bool(b) => Some(*b),
            _ => None,
        }
    }

    /// The value as `i64`, only for [`Number::Int`]; floats give `None`.
    pub fn as_i64(&self) -> (r: Option<i64>)
        ensures
            r == match self.model() {
                JValue::Int(i) => Some(i),
                _ => None::<i64>,
            },
    {
        match self {
            Value::Number(Number::Int(i)) => Some(*i),
            _ => None,
        }
    }

    pub fn as_str(&self) -> (r: Option<&str>)
        ensures
            match self.model() {
                JValue::Str(t) => r matches Some(x) && x@ == t,
                _ => r is None,
            },
    {
        match self {
            Value::String(s) => Some(s.as_str()),
            _ => None,
        }
    }

    pub fn as_array(&self) -> (r: Option<&[Value]>)
        ensures
            match self {
                Value::Array(a) => r matches Some(x) && x@ == a@,
                _ => r is None,
            },
    {
        match self {
            Value::Array(a) => Some(a.as_slice()),
            _ => None,
        }
    }

    pub fn as_object(&self) -> (r: Option<&[(String, Value)]>)
        ensures
            match self {
                Value::Object(o) => r matches Some(x) && x@ == o@,
                _ => r is None,
            },
    {
        match self {
            Value::Object(o) => Some(o.as_slice()),
            _ => None,
        }
    }

    /// Object member lookup. With duplicate keys the *last* occurrence wins,
    /// matching `JSON.parse`. Returns `None` on non-objects.
    pub fn get(&self, key: &str) -> (r: Option<&Value>)
        ensures
            opt_model(r) == match self.model() {
                JValue::Object(members) => lookup(members, key@),
                _ => None::<JValue>,
            },
    {
        match self {
            Value::Object(o) => {
                let ghost m = members_model(o@);
                proof {
                    lemma_members_model(o@);
                }
                assert(self.model() == JValue::Object(m));
                let wanted = key.to_owned();
                let mut k = o.len();
                assert(m.subrange(0, k as int) == m);
                while k > 0
                    invariant
                        k <= o@.len(),
                        m == members_model(o@),
                        m.len() == o@.len(),
                        forall|u: int|
                            0 <= u < o@.len() ==> #[trigger] m[u] == (o@[u].0@, o@[u].1.model()),
                        wanted@ == key@,
                        self.model() == JValue::Object(m),
                        lookup(m, key@) == lookup(m.subrange(0, k as int), key@),
                    decreases k,
                {
                    k = k - 1;
                    proof {
                        let t = m.subrange(0, k + 1);
                        assert(t.drop_last() == m.subrange(0, k as int));
                        assert(t.last() == m[k as int]);
                    }
                    if o[k].0 == wanted {
                        return Some(&o[k].1);
                    }
                }
                assert(m.subrange(0, 0) =~= Seq::<(Seq<char>, JValue)>::empty());
                None
            },
            _ => None,
        }
    }
}

impl Clone for Number {
    fn clone(&self) -> (r: Self)
        ensures
            r == *self,
    {
        match self {
            Number::Int(i) => Number::Int(*i),
            Number::Float(t) => Number::Float(t.clone()),
        }
    }
}

impl Clone for Value {
    /// A deep copy: the copy has the same model.
    fn clone(&self) -> (r: Self)
        ensures
            r.model() == self.model(),
        decreases self,
    {
        match self {
            Value::Null => Value::Null,
            Value::Bool(b) => Value::Bool(*b),
            Value::Number(n) => Value::Number(n.clone()),
            Value::String(s) => Value::String(s.clone()),
            Value::Array(items) => {
                let mut out: Vec<Value> = Vec::new();
                let mut i: usize = 0;
                proof {
                    lemma_items_model(items@);
                }
                while i < items.len()
                    invariant
                        i <= items@.len(),
                        out@.len() == i,
                        forall|k: int| 0 <= k < i ==> #[trigger] out@[k].model() == items@[k].model(),
                        *self == Value::Array(*items),
                    decreases items@.len() - i,
                {
                    proof {
                        assert(decreases_to!(*self => (*self)->Array_0));
                        vstd::std_specs::vec::axiom_vec_index_decreases(*items, i as int);
                    }
                    let c = items[i].clone();
                    out.push(c);
                    i = i + 1;
                }
                proof {
                    lemma_items_model(out@);
                    lemma_items_model(items@);
                    assert(items_model(out@) =~= items_model(items@));
                }
                Value::Array(out)
            },
            Value::Object(members) => {
                let mut out: Vec<(String, Value)> = Vec::new();
                let mut i: usize = 0;
                while i < members.len()
                    invariant
                        i <= members@.len(),
                        out@.len() == i,
                        forall|k: int|
                            0 <= k < i ==> #[trigger] out@[k].0@ == members@[k].0@ && out@[k].1.model()
                                == members@[k].1.model(),
                        *self == Value::Object(*members),
                    decreases members@.len() - i,
                {
                    proof {
                        assert(decreases_to!(*self => (*self)->Object_0));
                        vstd::std_specs::vec::axiom_vec_index_decreases(*members, i as int);
                        assert(decreases_to!(members[i as int] => members[i as int].1));
                    }
                    let (k, v) = &members[i];
                    let c = (k.clone(), v.clone());
                    out.push(c);
                    i = i + 1;
                }
                proof {
                    lemma_members_model(out@);
                    lemma_members_model(members@);
                    assert(members_model(out@) =~= members_model(members@));
                }
                Value::Object(out)
            },
        }
    }
}

} // verus!
