//! JSON values whose objects keep their order, so that a file that is read and
//! written back is not reshuffled.

use vstd::prelude::*;
use vstd::string::*;
use crate::order::Duplicate;
use crate::text::same;

verus! {

/// A JSON value.
#[derive(Debug)]
pub enum Value {
    Null,
    Bool(bool),
    /// A number, by its spelling.
    Number(String),
    Text(String),
    Array(Vec<Value>),
    Object(Object),
}

/// A JSON object: members by name, in the order they were written.
#[derive(Debug)]
pub struct Object {
    members: Vec<(String, Value)>,
}

/// What a [`Value`] means.
pub enum Json {
    Null,
    Bool(bool),
    Number(Seq<char>),
    Text(Seq<char>),
    Array(Seq<Json>),
    Object(Seq<(Seq<char>, Json)>),
}

/// The members of an object, in order.
pub type Members = Seq<(Seq<char>, Json)>;

impl DeepView for Value {
    type V = Json;

    open spec fn deep_view(&self) -> Json
        decreases self,
    {
        match self {
            Value::Null => Json::Null,
            Value::Bool(value) => Json::Bool(*value),
            Value::Number(text) => Json::Number(text@),
            Value::Text(text) => Json::Text(text@),
            Value::Array(items) => Json::Array(items_model(*items)),
            Value::Object(object) => Json::Object(object.model()),
        }
    }
}

/// What the items of an array mean.
pub open spec fn items_model(items: Vec<Value>) -> Seq<Json>
    decreases items,
{
    Seq::new(
        items@.len(),
        |i: int|
            if 0 <= i < items@.len() {
                items@[i].deep_view()
            } else {
                arbitrary()
            },
    )
}

impl Object {
    /// The members, in order.
    pub closed spec fn model(&self) -> Seq<(Seq<char>, Json)>
        decreases self,
    {
        Seq::new(
            self.members@.len(),
            |i: int|
                if 0 <= i < self.members@.len() {
                    (self.members@[i].0@, self.members@[i].1.deep_view())
                } else {
                    arbitrary()
                },
        )
    }
}

/// Is this the place of a name among the members of an object?
pub open spec fn is_at(members: Members, name: Seq<char>, i: int) -> bool {
    0 <= i < members.len() && members[i].0 == name
}

/// Do the members of an object have different names?
pub open spec fn distinct(members: Members) -> bool {
    forall|i: int, j: int|
        0 <= i < members.len() && 0 <= j < members.len() && #[trigger] members[i].0
            == #[trigger] members[j].0 ==> i == j
}

/// Does an object have a member of this name?
pub open spec fn holds(members: Members, name: Seq<char>) -> bool {
    exists|i: int| is_at(members, name, i)
}

/// The member of this name.
pub open spec fn member(members: Members, name: Seq<char>) -> Option<Json> {
    if holds(members, name) {
        Some(members[choose|i: int| is_at(members, name, i)].1)
    } else {
        None
    }
}

/// An object with a member set: in its place if it is there, and at the end
/// if it is not.
pub open spec fn with(members: Members, name: Seq<char>, value: Json) -> Members {
    if holds(members, name) {
        members.update(choose|i: int| is_at(members, name, i), (name, value))
    } else {
        members.push((name, value))
    }
}

/// An object with a member taken out, and the others left in their order.
pub open spec fn without(members: Members, name: Seq<char>) -> Members {
    if holds(members, name) {
        members.remove(choose|i: int| is_at(members, name, i))
    } else {
        members
    }
}

/// A name stands in one place only.
pub proof fn one_place(members: Members, name: Seq<char>, i: int)
    requires
        distinct(members),
        is_at(members, name, i),
    ensures
        (choose|k: int| is_at(members, name, k)) == i,
        member(members, name) == Some(members[i].1),
{
    let k = choose|k: int| is_at(members, name, k);
    assert(is_at(members, name, k));
}

/// What setting a member does to every member.
pub proof fn setting_a_member(members: Members, name: Seq<char>, value: Json, other: Seq<char>)
    requires
        distinct(members),
    ensures
        distinct(with(members, name, value)),
        member(with(members, name, value), name) == Some(value),
        other != name ==> member(with(members, name, value), other) == member(members, other),
{
    let after = with(members, name, value);
    if holds(members, name) {
        let i = choose|i: int| is_at(members, name, i);
        assert(is_at(members, name, i));
        assert forall|p: int, q: int|
            0 <= p < after.len() && 0 <= q < after.len() && #[trigger] after[p].0
                == #[trigger] after[q].0 implies p == q by {
            assert(members[p].0 == members[q].0);
        }
        assert(is_at(after, name, i));
        one_place(after, name, i);
        if other != name {
            if holds(members, other) {
                let k = choose|k: int| is_at(members, other, k);
                one_place(members, other, k);
                assert(is_at(after, other, k));
                one_place(after, other, k);
            } else if holds(after, other) {
                let k = choose|k: int| is_at(after, other, k);
                assert(is_at(members, other, k));
            }
        }
    } else {
        let n = members.len() as int;
        assert forall|p: int, q: int|
            0 <= p < after.len() && 0 <= q < after.len() && #[trigger] after[p].0
                == #[trigger] after[q].0 implies p == q by {
            if p < n && q < n {
                assert(members[p].0 == members[q].0);
            } else if p < n {
                assert(is_at(members, name, p));
            } else if q < n {
                assert(is_at(members, name, q));
            }
        }
        assert(is_at(after, name, n));
        one_place(after, name, n);
        if other != name {
            if holds(members, other) {
                let k = choose|k: int| is_at(members, other, k);
                one_place(members, other, k);
                assert(is_at(after, other, k));
                one_place(after, other, k);
            } else if holds(after, other) {
                let k = choose|k: int| is_at(after, other, k);
                assert(is_at(members, other, k));
            }
        }
    }
}

/// What taking a member out does to every member.
pub proof fn taking_a_member_out(members: Members, name: Seq<char>, other: Seq<char>)
    requires
        distinct(members),
    ensures
        distinct(without(members, name)),
        member(without(members, name), name) is None,
        other != name ==> member(without(members, name), other) == member(members, other),
{
    let after = without(members, name);
    if holds(members, name) {
        let i = choose|i: int| is_at(members, name, i);
        assert(is_at(members, name, i));
        assert forall|p: int| 0 <= p < after.len() implies #[trigger] after[p] == members[if p < i {
            p
        } else {
            p + 1
        }] by {}
        assert forall|p: int, q: int|
            0 <= p < after.len() && 0 <= q < after.len() && #[trigger] after[p].0
                == #[trigger] after[q].0 implies p == q by {
            let p2 = if p < i { p } else { p + 1 };
            let q2 = if q < i { q } else { q + 1 };
            assert(members[p2].0 == members[q2].0);
        }
        if holds(after, name) {
            let k = choose|k: int| is_at(after, name, k);
            let k2 = if k < i { k } else { k + 1 };
            assert(members[k2].0 == members[i].0);
        }
        if other != name {
            if holds(members, other) {
                let k = choose|k: int| is_at(members, other, k);
                one_place(members, other, k);
                let k2 = if k < i { k } else { k - 1 };
                assert(is_at(after, other, k2));
                one_place(after, other, k2);
            } else if holds(after, other) {
                let k = choose|k: int| is_at(after, other, k);
                let k2 = if k < i { k } else { k + 1 };
                assert(is_at(members, other, k2));
            }
        }
    }
}

impl Object {
    #[verifier::type_invariant]
    spec fn well_formed(self) -> bool {
        distinct(self.model())
    }

    /// An object with no members.
    pub fn new() -> (object: Self)
        ensures
            object.model() == Seq::<(Seq<char>, Json)>::empty(),
    {
        let object = Object { members: Vec::new() };
        assert(object.model() =~= Seq::<(Seq<char>, Json)>::empty());
        object
    }

    /// How many members there are.
    pub fn len(&self) -> (n: usize)
        ensures
            n == self.model().len(),
            distinct(self.model()),
    {
        proof {
            use_type_invariant(self);
        }
        self.members.len()
    }

    /// The name of the member at one place.
    pub fn name_at(&self, i: usize) -> (name: &String)
        requires
            i < self.model().len(),
        ensures
            name@ == self.model()[i as int].0,
    {
        &self.members[i].0
    }

    /// The value of the member at one place.
    pub fn value_at(&self, i: usize) -> (value: &Value)
        requires
            i < self.model().len(),
        ensures
            value.deep_view() == self.model()[i as int].1,
    {
        &self.members[i].1
    }

    fn find(&self, name: &str) -> (place: Option<usize>)
        ensures
            match place {
                Some(i) => is_at(self.model(), name@, i as int),
                None => !holds(self.model(), name@),
            },
    {
        let mut i: usize = 0;
        while i < self.members.len()
            invariant
                i <= self.members@.len(),
                forall|j: int| 0 <= j < i ==> !is_at(self.model(), name@, j),
            decreases self.members.len() - i,
        {
            if same(self.members[i].0.as_str(), name) {
                return Some(i);
            }
            i = i + 1;
        }
        None
    }

    /// The member of this name.
    pub fn get(&self, name: &str) -> (found: Option<&Value>)
        ensures
            match found {
                Some(value) => member(self.model(), name@) == Some(value.deep_view()),
                None => member(self.model(), name@) is None,
            },
    {
        proof {
            use_type_invariant(self);
        }
        match self.find(name) {
            Some(i) => {
                proof {
                    one_place(self.model(), name@, i as int);
                }
                Some(&self.members[i].1)
            },
            None => None,
        }
    }

    /// Set a member: in its place if it is there, at the end if it is not.
    pub fn insert(self, name: &str, value: Value) -> (object: Self)
        ensures
            object.model() == with(self.model(), name@, value.deep_view()),
            distinct(object.model()),
    {
        proof {
            use_type_invariant(&self);
            setting_a_member(self.model(), name@, value.deep_view(), name@);
        }
        let ghost before = self.model();
        let place = self.find(name);
        let Object { members } = self;
        let mut members: Vec<(String, Value)> = members;
        let ghost held = members@;
        let ghost meaning = value.deep_view();
        let ghost goal = with(before, name@, meaning);
        match place {
            Some(i) => {
                proof {
                    one_place(before, name@, i as int);
                }
                members[i] = (name.to_owned(), value);
            },
            None => {
                members.push((name.to_owned(), value));
            },
        }
        assert(Seq::new(members@.len(), |i: int| (members@[i].0@, members@[i].1.deep_view()))
            =~= goal) by {
            assert(before.len() == held.len());
            assert forall|k: int| 0 <= k < held.len() implies #[trigger] before[k] == (
                held[k].0@,
                held[k].1.deep_view(),
            ) by {}
        }
        Object::assemble(members, Ghost(goal))
    }

    fn assemble(members: Vec<(String, Value)>, Ghost(goal): Ghost<Members>) -> (object: Self)
        requires
            goal == Seq::new(members@.len(), |i: int| (members@[i].0@, members@[i].1.deep_view())),
            distinct(goal),
        ensures
            object.model() == goal,
    {
        proof {
            let made = Object { members };
            assert(made.model() =~= goal);
        }
        Object { members }
    }

    /// Take a member out, leaving the others in their order.
    pub fn remove(self, name: &str) -> (object: Self)
        ensures
            object.model() == without(self.model(), name@),
            distinct(object.model()),
    {
        proof {
            use_type_invariant(&self);
            taking_a_member_out(self.model(), name@, name@);
        }
        let ghost before = self.model();
        match self.find(name) {
            Some(i) => {
                proof {
                    one_place(before, name@, i as int);
                }
                let Object { members } = self;
                let mut members: Vec<(String, Value)> = members;
                let ghost held = members@;
                let ghost goal = without(before, name@);
                members.remove(i);
                assert(Seq::new(members@.len(), |k: int| (members@[k].0@, members@[k].1.deep_view()))
                    =~= goal) by {
                    assert(before.len() == held.len());
                    assert forall|k: int| 0 <= k < held.len() implies #[trigger] before[k] == (
                        held[k].0@,
                        held[k].1.deep_view(),
                    ) by {}
                }
                Object::assemble(members, Ghost(goal))
            },
            None => self,
        }
    }
}

fn duplicate_value(value: &Value) -> (copy: Value)
    ensures
        copy.deep_view() == value.deep_view(),
    decreases value,
{
    match value {
        Value::Null => Value::Null,
        Value::Bool(value) => Value::Bool(*value),
        Value::Number(text) => Value::Number(text.clone()),
        Value::Text(text) => Value::Text(text.clone()),
        Value::Array(items) => Value::Array(duplicate_items(items)),
        Value::Object(object) => Value::Object(duplicate_object(object)),
    }
}

fn duplicate_items(items: &Vec<Value>) -> (copies: Vec<Value>)
    ensures
        items_model(copies) == items_model(*items),
    decreases items,
{
    let mut copies: Vec<Value> = Vec::new();
    let mut i: usize = 0;
    while i < items.len()
        invariant
            i <= items@.len(),
            copies@.len() == i,
            forall|j: int|
                0 <= j < i ==> (#[trigger] copies@[j]).deep_view() == items@[j].deep_view(),
        decreases items.len() - i,
    {
        proof {
            assert(decreases_to!(items => items@[i as int]));
        }
        copies.push(duplicate_value(&items[i]));
        i = i + 1;
    }
    assert(items_model(copies) =~= items_model(*items));
    copies
}

fn duplicate_object(object: &Object) -> (copy: Object)
    ensures
        copy.model() == object.model(),
    decreases object,
{
    proof {
        use_type_invariant(object);
    }
    let mut members: Vec<(String, Value)> = Vec::new();
    let mut i: usize = 0;
    while i < object.members.len()
        invariant
            i <= object.members@.len(),
            members@.len() == i,
            forall|j: int|
                0 <= j < i ==> (#[trigger] members@[j]).0@ == object.members@[j].0@
                    && members@[j].1.deep_view() == object.members@[j].1.deep_view(),
        decreases object.members.len() - i,
    {
        let entry = &object.members[i];
        proof {
            assert(decreases_to!(object => object.members));
            assert(decreases_to!(object.members => object.members@[i as int]));
        }
        members.push((entry.0.clone(), duplicate_value(&entry.1)));
        i = i + 1;
    }
    assert(Seq::new(members@.len(), |k: int| (members@[k].0@, members@[k].1.deep_view()))
        =~= object.model());
    Object::assemble(members, Ghost(object.model()))
}

impl Duplicate for Value {
    fn duplicate(&self) -> (copy: Self) {
        duplicate_value(self)
    }
}

impl DeepView for Object {
    type V = Seq<(Seq<char>, Json)>;

    open spec fn deep_view(&self) -> Seq<(Seq<char>, Json)> {
        self.model()
    }
}

impl Duplicate for Object {
    fn duplicate(&self) -> (copy: Self) {
        duplicate_object(self)
    }
}

} // verus!
