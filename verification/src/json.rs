//! JSON values as the agent reads and writes them.

use vstd::prelude::*;

use crate::double::{integer, Double};
use crate::text::same;

verus! {

/// A JSON number: an integer where it was written as one, a binary64 number
/// otherwise.
#[derive(Clone, Copy, Debug, PartialEq, Eq, Structural)]
pub enum JsonNumber {
    Natural(u64),
    Negative(i64),
    Real(Double),
}

impl JsonNumber {
    /// The number as binary64.
    pub open spec fn value(self) -> Double {
        match self {
            JsonNumber::Natural(n) => integer(n as int),
            JsonNumber::Negative(n) => integer(n as int),
            JsonNumber::Real(x) => x,
        }
    }
}

/// A JSON value. An object holds its members in a list in which a later member
/// overrides an earlier one of the same name.
#[derive(Debug)]
pub enum Json {
    Null,
    Bool(bool),
    Number(JsonNumber),
    Text(String),
    Array(Vec<Json>),
    Object(Vec<Member>),
}

/// A named value of an object.
#[derive(Debug)]
pub struct Member {
    pub name: String,
    pub value: Json,
}

/// What a JSON value is: objects are maps from names to values.
pub enum JsonView {
    Null,
    Bool(bool),
    Number(JsonNumber),
    Text(Seq<char>),
    Array(Seq<JsonView>),
    Object(Map<Seq<char>, JsonView>),
}

/// The values of a list.
pub open spec fn array_view(items: Seq<Json>) -> Seq<JsonView>
    decreases items,
{
    if items.len() == 0 {
        Seq::empty()
    } else {
        array_view(items.drop_last()).push(items.last().view())
    }
}

/// The members of an object, later ones overriding earlier ones.
pub open spec fn object_view(members: Seq<Member>) -> Map<Seq<char>, JsonView>
    decreases members,
{
    if members.len() == 0 {
        Map::empty()
    } else {
        object_view(members.drop_last()).insert(members.last().name@, members.last().value.view())
    }
}

impl Json {
    pub open spec fn view(self) -> JsonView
        decreases self,
    {
        match self {
            Json::Null => JsonView::Null,
            Json::Bool(b) => JsonView::Bool(b),
            Json::Number(n) => JsonView::Number(n),
            Json::Text(s) => JsonView::Text(s@),
            Json::Array(items) => JsonView::Array(array_view(items@)),
            Json::Object(members) => JsonView::Object(object_view(members@)),
        }
    }
}

/// The member of an object with the given name.
pub open spec fn field(v: JsonView, name: Seq<char>) -> Option<JsonView> {
    match v {
        JsonView::Object(m) => if m.dom().contains(name) {
            Some(m[name])
        } else {
            None
        },
        _ => None,
    }
}

/// The text under a name, where there is one.
pub open spec fn text_field(v: JsonView, name: Seq<char>) -> Option<Seq<char>> {
    match field(v, name) {
        Some(JsonView::Text(s)) => Some(s),
        _ => None,
    }
}

/// The number under a name, where there is one.
pub open spec fn number_field(v: JsonView, name: Seq<char>) -> Option<Double> {
    match field(v, name) {
        Some(JsonView::Number(n)) => Some(n.value()),
        _ => None,
    }
}

/// The truth value under a name, where there is one.
pub open spec fn flag_field(v: JsonView, name: Seq<char>) -> Option<bool> {
    match field(v, name) {
        Some(JsonView::Bool(b)) => Some(b),
        _ => None,
    }
}

/// The texts among the items of a list, in order.
pub open spec fn texts_among(items: Seq<JsonView>) -> Seq<Seq<char>>
    decreases items.len(),
{
    if items.len() == 0 {
        Seq::empty()
    } else {
        match items.last() {
            JsonView::Text(s) => texts_among(items.drop_last()).push(s),
            _ => texts_among(items.drop_last()),
        }
    }
}

/// The texts of the list under a name; none where there is no list.
pub open spec fn texts_field(v: JsonView, name: Seq<char>) -> Seq<Seq<char>> {
    match field(v, name) {
        Some(JsonView::Array(items)) => texts_among(items),
        _ => Seq::empty(),
    }
}

/// The object `v` with a member set.
pub open spec fn with_field(v: JsonView, name: Seq<char>, value: JsonView) -> JsonView {
    match v {
        JsonView::Object(m) => JsonView::Object(m.insert(name, value)),
        _ => v,
    }
}

/// `v` with a member set; `null` becomes an object first.
pub open spec fn with_new_field(v: JsonView, name: Seq<char>, value: JsonView) -> JsonView {
    match v {
        JsonView::Null => with_field(JsonView::Object(Map::empty()), name, value),
        _ => with_field(v, name, value),
    }
}

/// A binary64 number as JSON; what is not finite has no JSON form but `null`.
pub open spec fn number_view(x: Double) -> JsonView {
    if x.finite() {
        JsonView::Number(JsonNumber::Real(x))
    } else {
        JsonView::Null
    }
}

pub open spec fn natural_view(n: nat) -> JsonView {
    JsonView::Number(JsonNumber::Natural(n as u64))
}

/// A list of texts as JSON.
pub open spec fn texts_view(texts: Seq<Seq<char>>) -> JsonView {
    JsonView::Array(texts.map_values(|t: Seq<char>| JsonView::Text(t)))
}

proof fn lemma_object_absent(members: Seq<Member>, name: Seq<char>)
    requires
        forall|i: int| 0 <= i < members.len() ==> (#[trigger] members[i]).name@ != name,
    ensures
        !object_view(members).dom().contains(name),
    decreases members.len(),
{
    if members.len() > 0 {
        let rest = members.drop_last();
        assert forall|i: int| 0 <= i < rest.len() implies (#[trigger] rest[i]).name@ != name by {
            assert(rest[i] == members[i]);
        }
        lemma_object_absent(rest, name);
        assert(members.last() == members[members.len() - 1]);
    }
}

/// The last member of a name is the one that counts.
proof fn lemma_object_present(members: Seq<Member>, at: int)
    requires
        0 <= at < members.len(),
        forall|i: int| at < i < members.len() ==> (#[trigger] members[i]).name@ != members[at].name@,
    ensures
        object_view(members).dom().contains(members[at].name@),
        object_view(members)[members[at].name@] == members[at].value.view(),
    decreases members.len(),
{
    if at < members.len() - 1 {
        let rest = members.drop_last();
        assert(rest[at] == members[at]);
        assert forall|i: int| at < i < rest.len() implies (#[trigger] rest[i]).name@ != rest[at].name@ by {
            assert(rest[i] == members[i]);
        }
        lemma_object_present(rest, at);
        assert(members.last() == members[members.len() - 1]);
    }
}

/// Replacing the last member of a name sets the field.
proof fn lemma_object_update(members: Seq<Member>, at: int, value: Json, new: Member)
    requires
        0 <= at < members.len(),
        forall|i: int| at < i < members.len() ==> (#[trigger] members[i]).name@ != members[at].name@,
        new.name@ == members[at].name@,
        new.value == value,
    ensures
        object_view(members.update(at, new)) == object_view(members).insert(members[at].name@, value.view()),
    decreases members.len(),
{
    let changed = members.update(at, new);
    let name = members[at].name@;
    if at == members.len() - 1 {
        assert(changed.drop_last() =~= members.drop_last());
        assert(object_view(changed) =~= object_view(members).insert(name, value.view()));
    } else {
        let rest = members.drop_last();
        assert(changed.drop_last() =~= rest.update(at, new));
        assert(rest[at] == members[at]);
        assert forall|i: int| at < i < rest.len() implies (#[trigger] rest[i]).name@ != rest[at].name@ by {
            assert(rest[i] == members[i]);
        }
        lemma_object_update(rest, at, value, new);
        let last = members.last();
        assert(last == members[members.len() - 1]);
        assert(changed.last() == last);
        assert(object_view(changed) =~= object_view(members).insert(name, value.view()));
    }
}

/// A list with one more value.
pub proof fn lemma_array_push(items: Seq<Json>, item: Json)
    ensures
        array_view(items.push(item)) == array_view(items).push(item@),
{
    assert(items.push(item).drop_last() =~= items);
}

proof fn lemma_array_index(items: Seq<Json>, i: int)
    requires
        0 <= i < items.len(),
    ensures
        array_view(items).len() == items.len(),
        array_view(items)[i] == items[i].view(),
    decreases items.len(),
{
    lemma_array_len(items);
    lemma_array_len(items.drop_last());
    if i < items.len() - 1 {
        lemma_array_index(items.drop_last(), i);
        assert(items.drop_last()[i] == items[i]);
    }
}

proof fn lemma_array_len(items: Seq<Json>)
    ensures
        array_view(items).len() == items.len(),
    decreases items.len(),
{
    if items.len() > 0 {
        lemma_array_len(items.drop_last());
    }
}

/// Where the last member of a name stands.
fn position(members: &Vec<Member>, name: &str) -> (r: Option<usize>)
    ensures
        match r {
            Some(at) => at < members@.len() && members@[at as int].name@ == name@
                && (forall|i: int| at < i < members@.len() ==> (#[trigger] members@[i]).name@ != name@),
            None => forall|i: int| 0 <= i < members@.len() ==> (#[trigger] members@[i]).name@ != name@,
        },
{
    let mut i: usize = members.len();
    while i > 0
        invariant
            i <= members@.len(),
            forall|j: int| i <= j < members@.len() ==> (#[trigger] members@[j]).name@ != name@,
        decreases i,
    {
        i = i - 1;
        if same(members[i].name.as_str(), name) {
            return Some(i);
        }
    }
    None
}

impl Json {
    /// An object without members.
    pub fn object() -> (r: Json)
        ensures
            r@ == JsonView::Object(Map::empty()),
            r is Object,
    {
        let members: Vec<Member> = Vec::new();
        Json::Object(members)
    }

    pub fn text(s: &str) -> (r: Json)
        ensures
            r@ == JsonView::Text(s@),
    {
        Json::Text(s.to_owned())
    }

    pub fn natural(n: u64) -> (r: Json)
        ensures
            r@ == natural_view(n as nat),
    {
        Json::Number(JsonNumber::Natural(n))
    }

    pub fn count(n: usize) -> (r: Json)
        ensures
            r@ == natural_view(n as nat),
    {
        Json::Number(JsonNumber::Natural(n as u64))
    }

    /// A binary64 number, or `null` where it is not finite.
    pub fn number(x: Double) -> (r: Json)
        ensures
            r@ == number_view(x),
    {
        if x.is_finite() {
            Json::Number(JsonNumber::Real(x))
        } else {
            Json::Null
        }
    }

    /// A text, or `null` where there is none.
    pub fn optional_text(s: &Option<String>) -> (r: Json)
        ensures
            r@ == match s {
                Some(t) => JsonView::Text(t@),
                None => JsonView::Null,
            },
    {
        match s {
            Some(t) => Json::text(t.as_str()),
            None => Json::Null,
        }
    }

    pub fn is_object(&self) -> (r: bool)
        ensures
            r == (self@ is Object),
            r == (*self is Object),
    {
        match self {
            Json::Object(_) => true,
            _ => false,
        }
    }

    pub fn is_null(&self) -> (r: bool)
        ensures
            r == (self@ is Null),
    {
        match self {
            Json::Null => true,
            _ => false,
        }
    }

    /// The member with the given name; none of a value that is not an object.
    pub fn get(&self, name: &str) -> (r: Option<&Json>)
        ensures
            match r {
                Some(v) => field(self@, name@) == Some(v@),
                None => field(self@, name@) is None,
            },
    {
        match self {
            Json::Object(members) => {
                match position(members, name) {
                    Some(i) => {
                        proof {
                            lemma_object_present(members@, i as int);
                        }
                        Some(&members[i].value)
                    },
                    None => {
                        proof {
                            lemma_object_absent(members@, name@);
                        }
                        None
                    },
                }
            },
            _ => None,
        }
    }

    pub fn text_at(&self, name: &str) -> (r: Option<&str>)
        ensures
            match r {
                Some(t) => text_field(self@, name@) == Some(t@),
                None => text_field(self@, name@) is None,
            },
    {
        match self.get(name) {
            Some(Json::Text(t)) => Some(t.as_str()),
            _ => None,
        }
    }

    pub fn number_at(&self, name: &str) -> (r: Option<Double>)
        ensures
            r == number_field(self@, name@),
    {
        match self.get(name) {
            Some(Json::Number(n)) => Some(
                match n {
                    JsonNumber::Natural(i) => Double::from_u64(*i),
                    JsonNumber::Negative(i) => Double::from_i64(*i),
                    JsonNumber::Real(x) => *x,
                },
            ),
            _ => None,
        }
    }

    pub fn flag_at(&self, name: &str) -> (r: Option<bool>)
        ensures
            r == flag_field(self@, name@),
    {
        match self.get(name) {
            Some(Json::Bool(b)) => Some(*b),
            _ => None,
        }
    }

    /// The texts of the list under a name; items that are not texts are left
    /// out.
    pub fn texts_at(&self, name: &str) -> (r: Vec<String>)
        ensures
            text_list(r@) == texts_field(self@, name@),
    {
        let mut texts: Vec<String> = Vec::new();
        if let Some(Json::Array(items)) = self.get(name) {
            let mut i: usize = 0;
            let ghost all = array_view(items@);
            proof {
                lemma_array_len(items@);
                assert(all.take(0) =~= Seq::empty());
            }
            assert(text_list(texts@) =~= texts_among(all.take(0)));
            while i < items.len()
                invariant
                    i <= items@.len(),
                    all == array_view(items@),
                    all.len() == items@.len(),
                    text_list(texts@) == texts_among(all.take(i as int)),
                decreases items@.len() - i,
            {
                proof {
                    lemma_array_index(items@, i as int);
                    assert(all.take(i + 1).drop_last() =~= all.take(i as int));
                    assert(all.take(i + 1).last() == items@[i as int]@);
                }
                if let Json::Text(t) = &items[i] {
                    let ghost before = texts@;
                    texts.push(t.clone());
                    assert(text_list(texts@) =~= text_list(before).push(t@));
                }
                i = i + 1;
            }
            assert(all.take(i as int) =~= all);
        }
        assert(texts@.len() == 0 ==> text_list(texts@) =~= Seq::empty());
        texts
    }

    /// Sets a member of an object; a value that is not an object stays as it is.
    pub fn set(&mut self, name: &str, value: Json)
        ensures
            final(self)@ == with_field(old(self)@, name@, value@),
            *final(self) is Object == *old(self) is Object,
    {
        match self {
            Json::Object(members) => {
                let ghost before = members@;
                match position(members, name) {
                    Some(i) => {
                        let member = Member { name: name.to_owned(), value };
                        proof {
                            lemma_object_update(before, i as int, value, member);
                        }
                        members.set(i, member);
                    },
                    None => {
                        let member = Member { name: name.to_owned(), value };
                        members.push(member);
                        assert(members@.drop_last() =~= before);
                    },
                }
            },
            _ => {},
        }
    }

    /// Sets a member; `null` becomes an object first. A value that is neither
    /// stays as it is.
    pub fn set_new(&mut self, name: &str, value: Json)
        ensures
            final(self)@ == with_new_field(old(self)@, name@, value@),
    {
        if self.is_null() {
            *self = Json::object();
        }
        self.set(name, value);
    }

    /// A list of values.
    pub fn list(items: Vec<Json>) -> (r: Json)
        ensures
            r@ == JsonView::Array(array_view(items@)),
    {
        Json::Array(items)
    }

    /// A list of texts.
    pub fn texts(items: &Vec<String>) -> (r: Json)
        ensures
            r@ == texts_view(text_list(items@)),
    {
        let ghost all = text_list(items@).map_values(|t: Seq<char>| JsonView::Text(t));
        let mut values: Vec<Json> = Vec::new();
        let mut i: usize = 0;
        assert(array_view(values@) =~= all.take(0));
        while i < items.len()
            invariant
                i <= items@.len(),
                all == text_list(items@).map_values(|t: Seq<char>| JsonView::Text(t)),
                array_view(values@) == all.take(i as int),
            decreases items@.len() - i,
        {
            let value = Json::text(items[i].as_str());
            proof {
                lemma_array_push(values@, value);
                assert(all.take(i + 1) =~= all.take(i as int).push(value@));
            }
            values.push(value);
            i = i + 1;
        }
        assert(all.take(i as int) =~= all);
        Json::list(values)
    }

    /// A copy of the value.
    pub fn copy(&self) -> (r: Json)
        ensures
            r@ == self@,
            r is Object == *self is Object,
        decreases self,
    {
        match self {
            Json::Null => Json::Null,
            Json::Bool(b) => Json::Bool(*b),
            Json::Number(n) => Json::Number(*n),
            Json::Text(t) => Json::Text(t.clone()),
            Json::Array(items) => {
                let mut copies: Vec<Json> = Vec::new();
                let mut i: usize = 0;
                while i < items.len()
                    invariant
                        i <= items@.len(),
                        copies@.len() == i,
                        *self == Json::Array(*items),
                        array_view(copies@) == array_view(items@.take(i as int)),
                    decreases items@.len() - i,
                {
                    let ghost before = copies@;
                    proof {
                        assert(decreases_to!(*self => self->Array_0));
                        assert(decreases_to!(*items => items@));
                        assert(decreases_to!(items@ => items@[i as int]));
                    }
                    let copy = items[i].copy();
                    copies.push(copy);
                    proof {
                        assert(copies@.drop_last() =~= before);
                        assert(items@.take(i + 1).drop_last() =~= items@.take(i as int));
                    }
                    i = i + 1;
                }
                assert(items@.take(i as int) =~= items@);
                Json::Array(copies)
            },
            Json::Object(members) => {
                let mut copies: Vec<Member> = Vec::new();
                let mut i: usize = 0;
                while i < members.len()
                    invariant
                        i <= members@.len(),
                        copies@.len() == i,
                        *self == Json::Object(*members),
                        object_view(copies@) == object_view(members@.take(i as int)),
                    decreases members@.len() - i,
                {
                    let ghost before = copies@;
                    proof {
                        assert(decreases_to!(*self => self->Object_0));
                        assert(decreases_to!(*members => members@));
                        assert(decreases_to!(members@ => members@[i as int]));
                        assert(decreases_to!(members@[i as int] => members@[i as int].value));
                    }
                    let value = members[i].value.copy();
                    let member = Member { name: members[i].name.clone(), value };
                    copies.push(member);
                    proof {
                        assert(copies@.drop_last() =~= before);
                        assert(members@.take(i + 1).drop_last() =~= members@.take(i as int));
                    }
                    i = i + 1;
                }
                assert(members@.take(i as int) =~= members@);
                Json::Object(copies)
            },
        }
    }
}

impl Clone for Json {
    fn clone(&self) -> (r: Json)
        ensures
            r@ == self@,
            r is Object == *self is Object,
    {
        self.copy()
    }
}

/// What a list of texts holds.
pub open spec fn text_list(texts: Seq<String>) -> Seq<Seq<char>> {
    Seq::new(texts.len(), |i: int| texts[i]@)
}

} // verus!
