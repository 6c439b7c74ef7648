//! The dynamic value that requests and responses are made of, shared by the
//! binary and the textual encoding.

use vstd::prelude::*;
use vstd::std_specs::cmp::PartialEqSpec;
use vstd::std_specs::convert::FromSpec;

use crate::numbers::{doubles_equal, equal_doubles, truncate_double, truncated_double};
use crate::text::str_eq;

verus! {

/// A dynamic value.
#[derive(Debug)]
pub enum Value {
    Null,
    Bool(bool),
    Int(i64),
    /// A double, held as the bits of its IEEE 754 representation.
    Double(u64),
    Str(String),
    Array(Vec<Value>),
    /// An ordered map: the members stay in the order in which they were added.
    Object(Vec<(String, Value)>),
}

/// What a `Value` stands for.
pub enum Datum {
    Null,
    Bool(bool),
    Int(i64),
    Double(u64),
    Str(Seq<char>),
    Array(Seq<Datum>),
    Object(Seq<(Seq<char>, Datum)>),
}

/// What a row of values stands for.
pub open spec fn data(items: Seq<Value>) -> Seq<Datum>
    decreases items,
{
    if items.len() == 0 {
        Seq::empty()
    } else {
        data(items.drop_last()).push(items.last().view())
    }
}

/// What the members of an object stand for.
pub open spec fn members(pairs: Seq<(String, Value)>) -> Seq<(Seq<char>, Datum)>
    decreases pairs,
{
    if pairs.len() == 0 {
        Seq::empty()
    } else {
        members(pairs.drop_last()).push((pairs.last().0@, pairs.last().1.view()))
    }
}

impl View for Value {
    type V = Datum;

    open spec fn view(&self) -> Datum
        decreases self,
    {
        match self {
            Value::Null => Datum::Null,
            Value::Bool(b) => Datum::Bool(*b),
            Value::Int(i) => Datum::Int(*i),
            Value::Double(d) => Datum::Double(*d),
            Value::Str(s) => Datum::Str(s@),
            Value::Array(items) => Datum::Array(data(items@)),
            Value::Object(pairs) => Datum::Object(members(pairs@)),
        }
    }
}

/// A row of values stands for what each of them stands for.
pub proof fn lemma_data(items: Seq<Value>)
    ensures
        data(items).len() == items.len(),
        forall|i: int| 0 <= i < items.len() ==> #[trigger] data(items)[i] == items[i]@,
    decreases items.len(),
{
    if items.len() > 0 {
        lemma_data(items.drop_last());
        assert(data(items) == data(items.drop_last()).push(items.last()@));
    } else {
        assert(data(items) == Seq::<Datum>::empty());
    }
}

/// An object's members stand for what each key and each value stands for.
pub proof fn lemma_members(pairs: Seq<(String, Value)>)
    ensures
        members(pairs).len() == pairs.len(),
        forall|i: int|
            0 <= i < pairs.len() ==> #[trigger] members(pairs)[i] == (pairs[i].0@, pairs[i].1@),
    decreases pairs.len(),
{
    if pairs.len() > 0 {
        lemma_members(pairs.drop_last());
        assert(members(pairs) == members(pairs.drop_last()).push((pairs.last().0@, pairs.last().1@)));
    } else {
        assert(members(pairs) == Seq::<(Seq<char>, Datum)>::empty());
    }
}

/// A row of values that was extended by one.
pub proof fn lemma_data_push(items: Seq<Value>, v: Value)
    ensures
        data(items.push(v)) == data(items).push(v@),
{
    assert(items.push(v).drop_last() == items);
}

/// An object that was extended by one member.
pub proof fn lemma_members_push(pairs: Seq<(String, Value)>, key: String, v: Value)
    ensures
        members(pairs.push((key, v))) == members(pairs).push((key@, v@)),
{
    assert(pairs.push((key, v)).drop_last() == pairs);
}

/// The front of a row of values, extended by one.
pub proof fn lemma_data_take(items: Seq<Value>, i: int)
    requires
        0 <= i < items.len(),
    ensures
        data(items.take(i + 1)) == data(items.take(i)).push(items[i]@),
{
    assert(items.take(i + 1).drop_last() == items.take(i));
}

/// The front of an object, extended by one member.
pub proof fn lemma_members_take(pairs: Seq<(String, Value)>, i: int)
    requires
        0 <= i < pairs.len(),
    ensures
        members(pairs.take(i + 1)) == members(pairs.take(i)).push((pairs[i].0@, pairs[i].1@)),
{
    assert(pairs.take(i + 1).drop_last() == pairs.take(i));
}

/// What an optional value stands for.
pub open spec fn shown(v: Option<&Value>) -> Option<Datum> {
    match v {
        Some(v) => Some(v@),
        None => None,
    }
}

/// The value of the first member with the given key.
pub open spec fn find(pairs: Seq<(Seq<char>, Datum)>, key: Seq<char>) -> Option<Datum>
    decreases pairs.len(),
{
    if pairs.len() == 0 {
        None
    } else {
        match find(pairs.drop_last(), key) {
            Some(v) => Some(v),
            None => if pairs.last().0 == key {
                Some(pairs.last().1)
            } else {
                None
            },
        }
    }
}

impl Datum {
    /// The value under a key of an object.
    pub open spec fn lookup(self, key: Seq<char>) -> Option<Datum> {
        match self {
            Datum::Object(pairs) => find(pairs, key),
            _ => None,
        }
    }

    /// The text of a string.
    pub open spec fn text(self) -> Option<Seq<char>> {
        match self {
            Datum::Str(s) => Some(s),
            _ => None,
        }
    }

    /// The integer that a number is, or is cut down to.
    pub open spec fn integer(self) -> Option<i64> {
        match self {
            Datum::Int(i) => Some(i),
            Datum::Double(d) => Some(truncated_double(d)),
            _ => None,
        }
    }

    /// The elements of an array.
    pub open spec fn elements(self) -> Option<Seq<Datum>> {
        match self {
            Datum::Array(items) => Some(items),
            _ => None,
        }
    }
}

impl Value {
    /// A string.
    pub fn str<T: Into<String>>(s: T) -> (r: Value)
        ensures
            exists|t: String| #[trigger] call_ensures(T::into, (s,), t) && r@ == Datum::Str(t@),
    {
        let t: String = s.into();
        Value::Str(t)
    }

    /// Starts an object.
    pub fn obj() -> (r: ObjBuilder)
        ensures
            r@ == Seq::<(Seq<char>, Datum)>::empty(),
    {
        ObjBuilder(Vec::new())
    }

    /// The value of the first member of an object that has the given key.
    pub fn get(&self, key: &str) -> (r: Option<&Value>)
        ensures
            shown(r) == self@.lookup(key@),
    {
        match self {
            Value::Object(pairs) => {
                let mut i: usize = 0;
                assert(pairs@.take(0) == Seq::<(String, Value)>::empty());
                while i < pairs.len()
                    invariant
                        i <= pairs.len(),
                        find(members(pairs@.take(i as int)), key@) is None,
                        self@ == Datum::Object(members(pairs@)),
                    decreases pairs.len() - i,
                {
                    proof {
                        lemma_members_take(pairs@, i as int);
                        assert(members(pairs@.take(i + 1)).drop_last() == members(pairs@.take(i as int)));
                    }
                    if str_eq(pairs[i].0.as_str(), key) {
                        proof {
                            lemma_found(pairs@, i + 1, key@);
                        }
                        return Some(&pairs[i].1);
                    }
                    i += 1;
                }
                assert(pairs@.take(i as int) == pairs@);
                None
            },
            _ => None,
        }
    }

    /// The text of a string.
    pub fn as_str(&self) -> (r: Option<&str>)
        ensures
            match r {
                Some(s) => self@.text() == Some(s@),
                None => self@.text() is None,
            },
    {
        match self {
            Value::Str(s) => Some(s.as_str()),
            _ => None,
        }
    }

    /// The integer that a number is; a double is cut down to its integer part.
    pub fn as_i64(&self) -> (r: Option<i64>)
        ensures
            r == self@.integer(),
    {
        match self {
            Value::Int(i) => Some(*i),
            Value::Double(d) => Some(truncate_double(*d)),
            _ => None,
        }
    }

    /// The truth value of a boolean.
    pub fn as_bool(&self) -> (r: Option<bool>)
        ensures
            r == (match self@ {
                Datum::Bool(b) => Some(b),
                _ => None,
            }),
    {
        match self {
            Value::Bool(b) => Some(*b),
            _ => None,
        }
    }

    /// The elements of an array.
    pub fn as_array(&self) -> (r: Option<&[Value]>)
        ensures
            match r {
                Some(items) => self@.elements() == Some(data(items@)),
                None => self@.elements() is None,
            },
    {
        match self {
            Value::Array(a) => Some(a.as_slice()),
            _ => None,
        }
    }
}

/// What is found among the first members is found among all of them.
proof fn lemma_found(pairs: Seq<(String, Value)>, n: int, key: Seq<char>)
    requires
        0 <= n <= pairs.len(),
        find(members(pairs.take(n)), key) is Some,
    ensures
        find(members(pairs), key) == find(members(pairs.take(n)), key),
    decreases pairs.len() - n,
{
    if n == pairs.len() {
        assert(pairs.take(n) == pairs);
    } else {
        lemma_members_take(pairs, n);
        assert(members(pairs.take(n + 1)).drop_last() == members(pairs.take(n)));
        lemma_found(pairs, n + 1, key);
    }
}

/// Copies a value.
pub(crate) fn duplicate(v: &Value) -> (r: Value)
    ensures
        r@ == v@,
    decreases v,
{
    match v {
        Value::Null => Value::Null,
        Value::Bool(b) => Value::Bool(*b),
        Value::Int(i) => Value::Int(*i),
        Value::Double(d) => Value::Double(*d),
        Value::Str(s) => Value::Str(s.clone()),
        Value::Array(items) => {
            let mut out: Vec<Value> = Vec::new();
            let mut i: usize = 0;
            while i < items.len()
                invariant
                    i <= items.len(),
                    v == Value::Array(*items),
                    data(out@) == data(items@.take(i as int)),
                decreases items.len() - i,
            {
                assert(decreases_to!(*v => v->Array_0));
                assert(decreases_to!(*items => items[i as int]));
                let item = duplicate(&items[i]);
                proof {
                    lemma_data_push(out@, item);
                    lemma_data_take(items@, i as int);
                }
                out.push(item);
                i += 1;
            }
            assert(items@.take(i as int) == items@);
            Value::Array(out)
        },
        Value::Object(pairs) => {
            let mut out: Vec<(String, Value)> = Vec::new();
            let mut i: usize = 0;
            while i < pairs.len()
                invariant
                    i <= pairs.len(),
                    v == Value::Object(*pairs),
                    members(out@) == members(pairs@.take(i as int)),
                decreases pairs.len() - i,
            {
                assert(decreases_to!(*v => v->Object_0));
                assert(decreases_to!(*pairs => pairs[i as int]));
                assert(decreases_to!(pairs[i as int] => pairs[i as int].1));
                let key = pairs[i].0.clone();
                let item = duplicate(&pairs[i].1);
                proof {
                    lemma_members_push(out@, key, item);
                    lemma_members_take(pairs@, i as int);
                }
                out.push((key, item));
                i += 1;
            }
            assert(pairs@.take(i as int) == pairs@);
            Value::Object(out)
        },
    }
}

/// Whether two values are equal: doubles as numbers, and members in their order.
pub open spec fn alike(a: Datum, b: Datum) -> bool
    decreases a,
{
    match (a, b) {
        (Datum::Null, Datum::Null) => true,
        (Datum::Bool(x), Datum::Bool(y)) => x == y,
        (Datum::Int(x), Datum::Int(y)) => x == y,
        (Datum::Double(x), Datum::Double(y)) => equal_doubles(x, y),
        (Datum::Str(x), Datum::Str(y)) => x == y,
        (Datum::Array(x), Datum::Array(y)) => items_alike(x, y),
        (Datum::Object(x), Datum::Object(y)) => members_alike(x, y),
        _ => false,
    }
}

/// Whether two rows of values are equal.
pub open spec fn items_alike(a: Seq<Datum>, b: Seq<Datum>) -> bool
    decreases a,
{
    a.len() == b.len() && forall|k: int| 0 <= k < a.len() ==> alike(#[trigger] a[k], b[k])
}

/// Whether the members of two objects are equal.
pub open spec fn members_alike(
    a: Seq<(Seq<char>, Datum)>,
    b: Seq<(Seq<char>, Datum)>,
) -> bool
    decreases a,
{
    a.len() == b.len() && forall|k: int|
        0 <= k < a.len() ==> (#[trigger] a[k]).0 == b[k].0 && alike(a[k].1, b[k].1)
}

/// Whether two values are equal.
fn same(a: &Value, b: &Value) -> (r: bool)
    ensures
        r == alike(a@, b@),
    decreases a,
{
    match (a, b) {
        (Value::Null, Value::Null) => true,
        (Value::Bool(x), Value::Bool(y)) => *x == *y,
        (Value::Int(x), Value::Int(y)) => *x == *y,
        (Value::Double(x), Value::Double(y)) => doubles_equal(*x, *y),
        (Value::Str(x), Value::Str(y)) => str_eq(x.as_str(), y.as_str()),
        (Value::Array(x), Value::Array(y)) => {
            let ghost dx = data(x@);
            let ghost dy = data(y@);
            proof {
                lemma_data(x@);
                lemma_data(y@);
                assert(a@ == Datum::Array(dx) && b@ == Datum::Array(dy));
            }
            if x.len() != y.len() {
                assert(!items_alike(dx, dy));
                return false;
            }
            let mut i: usize = 0;
            while i < x.len()
                invariant
                    i <= x@.len() == y@.len(),
                    *a == Value::Array(*x),
                    a@ == Datum::Array(dx),
                    b@ == Datum::Array(dy),
                    dx.len() == x@.len(),
                    dy.len() == y@.len(),
                    forall|k: int| 0 <= k < x@.len() ==> #[trigger] dx[k] == x@[k]@,
                    forall|k: int| 0 <= k < y@.len() ==> #[trigger] dy[k] == y@[k]@,
                    forall|k: int| 0 <= k < i ==> alike(#[trigger] dx[k], dy[k]),
                decreases x@.len() - i,
            {
                assert(decreases_to!(*a => a->Array_0));
                assert(decreases_to!(*x => x[i as int]));
                assert(dx[i as int] == x@[i as int]@);
                assert(dy[i as int] == y@[i as int]@);
                if !same(&x[i], &y[i]) {
                    assert(!items_alike(dx, dy));
                    return false;
                }
                i += 1;
            }
            assert(items_alike(dx, dy));
            true
        },
        (Value::Object(x), Value::Object(y)) => {
            let ghost dx = members(x@);
            let ghost dy = members(y@);
            proof {
                lemma_members(x@);
                lemma_members(y@);
                assert(a@ == Datum::Object(dx) && b@ == Datum::Object(dy));
            }
            if x.len() != y.len() {
                assert(!members_alike(dx, dy));
                return false;
            }
            let mut i: usize = 0;
            while i < x.len()
                invariant
                    i <= x@.len() == y@.len(),
                    *a == Value::Object(*x),
                    a@ == Datum::Object(dx),
                    b@ == Datum::Object(dy),
                    dx.len() == x@.len(),
                    dy.len() == y@.len(),
                    forall|k: int|
                        0 <= k < x@.len() ==> #[trigger] dx[k] == (x@[k].0@, x@[k].1@),
                    forall|k: int|
                        0 <= k < y@.len() ==> #[trigger] dy[k] == (y@[k].0@, y@[k].1@),
                    forall|k: int|
                        0 <= k < i ==> (#[trigger] dx[k]).0 == dy[k].0 && alike(dx[k].1, dy[k].1),
                decreases x@.len() - i,
            {
                assert(decreases_to!(*a => a->Object_0));
                assert(decreases_to!(*x => x[i as int]));
                assert(decreases_to!(x[i as int] => x[i as int].1));
                assert(dx[i as int] == (x@[i as int].0@, x@[i as int].1@));
                assert(dy[i as int] == (y@[i as int].0@, y@[i as int].1@));
                if !str_eq(x[i].0.as_str(), y[i].0.as_str()) || !same(&x[i].1, &y[i].1) {
                    assert(!members_alike(dx, dy));
                    return false;
                }
                i += 1;
            }
            assert(members_alike(dx, dy));
            true
        },
        _ => false,
    }
}

impl vstd::std_specs::cmp::PartialEqSpecImpl for Value {
    open spec fn obeys_eq_spec() -> bool {
        true
    }

    open spec fn eq_spec(&self, other: &Value) -> bool {
        alike(self@, other@)
    }
}

impl PartialEq for Value {
    fn eq(&self, other: &Value) -> (r: bool) {
        same(self, other)
    }
}

impl Clone for Value {
    fn clone(&self) -> (r: Self)
        ensures
            r@ == self@,
    {
        duplicate(self)
    }
}

impl vstd::std_specs::convert::FromSpecImpl<&str> for Value {
    open spec fn obeys_from_spec() -> bool {
        false
    }

    open spec fn from_spec(s: &str) -> Self {
        arbitrary()
    }
}

impl From<&str> for Value {
    fn from(s: &str) -> (r: Self)
        ensures
            r@ == Datum::Str(s@),
    {
        Value::Str(s.to_string())
    }
}

impl vstd::std_specs::convert::FromSpecImpl<String> for Value {
    open spec fn obeys_from_spec() -> bool {
        true
    }

    open spec fn from_spec(s: String) -> Self {
        Value::Str(s)
    }
}

impl From<String> for Value {
    fn from(s: String) -> (r: Self) {
        Value::Str(s)
    }
}

impl vstd::std_specs::convert::FromSpecImpl<i64> for Value {
    open spec fn obeys_from_spec() -> bool {
        true
    }

    open spec fn from_spec(v: i64) -> Self {
        Value::Int(v)
    }
}

impl From<i64> for Value {
    fn from(v: i64) -> (r: Self) {
        Value::Int(v)
    }
}

impl vstd::std_specs::convert::FromSpecImpl<bool> for Value {
    open spec fn obeys_from_spec() -> bool {
        true
    }

    open spec fn from_spec(v: bool) -> Self {
        Value::Bool(v)
    }
}

impl From<bool> for Value {
    fn from(v: bool) -> (r: Self) {
        Value::Bool(v)
    }
}

impl vstd::std_specs::convert::FromSpecImpl<Vec<Value>> for Value {
    open spec fn obeys_from_spec() -> bool {
        true
    }

    open spec fn from_spec(v: Vec<Value>) -> Self {
        Value::Array(v)
    }
}

impl From<Vec<Value>> for Value {
    fn from(v: Vec<Value>) -> (r: Self) {
        Value::Array(v)
    }
}

/// Builds an object member by member.
pub struct ObjBuilder(Vec<(String, Value)>);

impl View for ObjBuilder {
    type V = Seq<(Seq<char>, Datum)>;

    closed spec fn view(&self) -> Seq<(Seq<char>, Datum)> {
        members(self.0@)
    }
}

impl ObjBuilder {
    /// Adds a member.
    pub fn set<T: Into<Value>>(self, key: &str, val: T) -> (r: Self)
        ensures
            exists|v: Value|
                #[trigger] call_ensures(T::into, (val,), v) && r@ == self@.push((key@, v@)),
    {
        let v: Value = val.into();
        self.set_value(key, v)
    }

    /// Adds a member that is a value already.
    pub fn set_value(self, key: &str, v: Value) -> (r: Self)
        ensures
            r@ == self@.push((key@, v@)),
    {
        let mut pairs = self.0;
        let key = key.to_string();
        proof {
            lemma_members_push(pairs@, key, v);
        }
        pairs.push((key, v));
        ObjBuilder(pairs)
    }

    /// The finished object.
    pub fn build(self) -> (r: Value)
        ensures
            r@ == Datum::Object(self@),
    {
        Value::Object(self.0)
    }
}

/// The value under a key is that of the first member with it, whatever follows; a key
/// that no member has has none.
pub proof fn law_first_member_counts(
    front: Seq<(Seq<char>, Datum)>,
    key: Seq<char>,
    v: Datum,
    back: Seq<(Seq<char>, Datum)>,
)
    requires
        forall|k: int| 0 <= k < front.len() ==> (#[trigger] front[k]).0 != key,
    ensures
        Datum::Object(front).lookup(key) is None,
        Datum::Object(front + seq![(key, v)] + back).lookup(key) == Some(v),
    decreases back.len(), front.len(),
{
    if front.len() > 0 {
        let less = front.drop_last();
        assert forall|k: int| 0 <= k < less.len() implies (#[trigger] less[k]).0 != key by {
            assert(less[k] == front[k]);
        }
        law_first_member_counts(less, key, v, Seq::empty());
        assert(front.last() == front[front.len() - 1]);
    }
    let all = front + seq![(key, v)] + back;
    if back.len() == 0 {
        assert(all.drop_last() =~= front);
        assert(all.last() == (key, v));
    } else {
        law_first_member_counts(front, key, v, back.drop_last());
        assert(all.drop_last() =~= front + seq![(key, v)] + back.drop_last());
    }
}

/// Only objects have values under keys, only strings a text, only arrays elements, and
/// only numbers an integer; an integer is itself.
pub proof fn law_what_values_hold(v: Datum, key: Seq<char>)
    ensures
        v.lookup(key) is Some ==> v is Object,
        v.text() is Some <==> v is Str,
        v is Str ==> v == Datum::Str(v.text()->0),
        v.elements() is Some <==> v is Array,
        v is Array ==> v == Datum::Array(v.elements()->0),
        v.integer() is Some <==> v is Int || v is Double,
        v is Int ==> v == Datum::Int(v.integer()->0),
{
}

/// Whether a value holds no double.
pub open spec fn without_doubles(v: Datum) -> bool
    decreases v,
{
    match v {
        Datum::Double(_) => false,
        Datum::Array(items) => forall|k: int|
            0 <= k < items.len() ==> without_doubles(#[trigger] items[k]),
        Datum::Object(pairs) => forall|k: int|
            0 <= k < pairs.len() ==> without_doubles((#[trigger] pairs[k]).1),
        _ => true,
    }
}

/// Values without doubles are equal if and only if they are the same.
pub proof fn law_equal_values(a: Datum, b: Datum)
    requires
        without_doubles(a),
    ensures
        alike(a, b) <==> a == b,
    decreases a,
{
    match (a, b) {
        (Datum::Array(x), Datum::Array(y)) => {
            if x.len() == y.len() {
                assert forall|k: int| 0 <= k < x.len() implies (alike(#[trigger] x[k], y[k])
                    <==> x[k] == y[k]) by {
                    law_equal_values(x[k], y[k]);
                }
                if items_alike(x, y) {
                    assert(x =~= y);
                }
                if x == y {
                    assert(items_alike(x, y));
                }
            }
        },
        (Datum::Object(x), Datum::Object(y)) => {
            if x.len() == y.len() {
                assert forall|k: int| 0 <= k < x.len() implies (alike((#[trigger] x[k]).1, y[k].1)
                    <==> x[k].1 == y[k].1) by {
                    assert(decreases_to!(x => x[k]));
                    assert(decreases_to!(x[k] => x[k].1));
                    law_equal_values(x[k].1, y[k].1);
                }
                if members_alike(x, y) {
                    assert forall|k: int| 0 <= k < x.len() implies x[k] == y[k] by {
                        assert(x[k].0 == y[k].0 && alike(x[k].1, y[k].1));
                    }
                    assert(x =~= y);
                }
                if x == y {
                    assert(members_alike(x, y));
                }
            }
        },
        _ => {},
    }
}

/// Two doubles are equal as values if and only if they are equal as numbers, which the
/// two zeros are, and what is no number never is.
pub proof fn law_equal_doubles(a: u64, b: u64)
    ensures
        alike(Datum::Double(a), Datum::Double(b)) <==> {
            &&& a % 0x8000_0000_0000_0000 <= 0x7ff0_0000_0000_0000
            &&& b % 0x8000_0000_0000_0000 <= 0x7ff0_0000_0000_0000
            &&& a == b || (a % 0x8000_0000_0000_0000 == 0 && b % 0x8000_0000_0000_0000 == 0)
        },
{
    crate::numbers::law_zeros_and_what_is_no_number(a);
    crate::numbers::law_zeros_and_what_is_no_number(b);
}

/// Two values are equal if and only if what they stand for is alike; what is made of a text,
/// an integer, a truth value or a row of values is that.
pub proof fn law_values_made_of_others(
    v: Value,
    w: Value,
    s: String,
    n: i64,
    b: bool,
    all: Vec<Value>,
)
    ensures
        v.eq_spec(&w) <==> alike(v@, w@),
        <Value as FromSpec<String>>::from_spec(s) == Value::Str(s),
        <Value as FromSpec<i64>>::from_spec(n) == Value::Int(n),
        <Value as FromSpec<bool>>::from_spec(b) == Value::Bool(b),
        <Value as FromSpec<Vec<Value>>>::from_spec(all) == Value::Array(all),
{
}

/// A value stands for itself: nothing, a truth value, a number, a text, the values of an
/// array in order, and the members of an object in order.
pub proof fn law_what_values_stand_for(v: Value, k: int)
    ensures
        match v {
            Value::Null => v@ == Datum::Null,
            Value::Bool(b) => v@ == Datum::Bool(b),
            Value::Int(i) => v@ == Datum::Int(i),
            Value::Double(d) => v@ == Datum::Double(d),
            Value::Str(s) => v@ == Datum::Str(s@),
            Value::Array(items) => v@ is Array && v@->Array_0.len() == items@.len() && (0 <= k
                < items@.len() ==> v@->Array_0[k] == items@[k]@),
            Value::Object(pairs) => v@ is Object && v@->Object_0.len() == pairs@.len() && (0 <= k
                < pairs@.len() ==> v@->Object_0[k] == (pairs@[k].0@, pairs@[k].1@)),
        },
{
    match v {
        Value::Array(items) => lemma_data(items@),
        Value::Object(pairs) => lemma_members(pairs@),
        _ => {},
    }
}

} // verus!
