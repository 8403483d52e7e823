//! A JSON document as plain values, with the lookups the response readers
//! use.
use vstd::prelude::*;

verus! {

/// A JSON value. Numbers keep their textual form; an object keeps its
/// members in the order the parser produced them, each key once.
#[derive(Debug)]
pub enum Json {
    Null,
    Bool(bool),
    Number(String),
    Str(String),
    Array(Vec<Json>),
    Object(Vec<(String, Json)>),
}

/// Position of the first member named `key` in `members`.
pub open spec fn member_index(members: Seq<(String, Json)>, key: Seq<char>) -> Option<int>
    decreases members.len(),
{
    if members.len() == 0 {
        None
    } else if members[0].0@ == key {
        Some(0)
    } else {
        match member_index(members.drop_first(), key) {
            Some(i) => Some(i + 1),
            None => None,
        }
    }
}

/// `member_index` finds the first member with the key, if any.
pub proof fn lemma_member_index(members: Seq<(String, Json)>, key: Seq<char>)
    ensures
        match member_index(members, key) {
            Some(i) => 0 <= i < members.len() && members[i].0@ == key && forall|j: int|
                0 <= j < i ==> (#[trigger] members[j]).0@ != key,
            None => forall|j: int| 0 <= j < members.len() ==> (#[trigger] members[j]).0@ != key,
        },
    decreases members.len(),
{
    if members.len() > 0 && members[0].0@ != key {
        lemma_member_index(members.drop_first(), key);
        assert forall|j: int| 0 < j < members.len() implies members[j] == members.drop_first()[j
            - 1] by {}
    }
}

impl Json {
    /// `value[key]`: the member named `key` of an object; `None` stands for
    /// the `null` that indexing yields otherwise.
    pub open spec fn get_spec(self, key: Seq<char>) -> Option<Json> {
        match self {
            Json::Object(members) => match member_index(members@, key) {
                Some(i) => Some(members@[i].1),
                None => None,
            },
            _ => None,
        }
    }

    /// The string held by a JSON string.
    pub open spec fn str_spec(self) -> Option<Seq<char>> {
        match self {
            Json::Str(s) => Some(s@),
            _ => None,
        }
    }

    /// The member named `key` of an object.
    pub fn get(&self, key: &str) -> (r: Option<&Json>)
        ensures
            r matches Some(j) ==> self.get_spec(key@) == Some(*j),
            r is None ==> self.get_spec(key@) is None,
    {
        match self {
            Json::Object(members) => {
                let k = String::from_str(key);
                let mut i: usize = 0;
                while i < members.len()
                    invariant
                        0 <= i <= members@.len(),
                        k@ == key@,
                        *self == Json::Object(*members),
                        forall|j: int| 0 <= j < i ==> (#[trigger] members@[j]).0@ != key@,
                    decreases members@.len() - i,
                {
                    if members[i].0 == k {
                        proof {
                            lemma_member_index(members@, key@);
                            let found = member_index(members@, key@);
                            if found is None {
                                assert(members@[i as int].0@ != key@);
                            } else {
                                let f = found->0;
                                if f < i {
                                    assert(members@[f].0@ != key@);
                                } else if f > i {
                                    assert(members@[i as int].0@ != key@);
                                }
                            }
                            assert(member_index(members@, key@) == Some(i as int));
                            assert(*self == Json::Object(*members));
                        }
                        return Some(&members[i].1);
                    }
                    i = i + 1;
                }
                proof {
                    lemma_member_index(members@, key@);
                    let found = member_index(members@, key@);
                    if found is Some {
                        assert(members@[found->0].0@ != key@);
                    }
                }
                None
            },
            _ => None,
        }
    }

    /// The string held by a JSON string.
    pub fn as_str(&self) -> (r: Option<&String>)
        ensures
            r matches Some(s) ==> self.str_spec() == Some(s@),
            r is None ==> self.str_spec() is None,
    {
        match self {
            Json::Str(s) => Some(s),
            _ => None,
        }
    }

    /// The elements of a JSON array.
    pub fn as_array(&self) -> (r: Option<&Vec<Json>>)
        ensures
            r matches Some(a) ==> *self == Json::Array(*a),
            r is None ==> !(self is Array),
    {
        match self {
            Json::Array(a) => Some(a),
            _ => None,
        }
    }
}

/// The string `j[key]` holds, if any.
pub open spec fn str_at(j: Json, key: Seq<char>) -> Option<Seq<char>> {
    match j.get_spec(key) {
        Some(v) => v.str_spec(),
        None => None,
    }
}

/// The string `j[key]` holds, if any.
pub fn str_field<'a>(j: &'a Json, key: &str) -> (r: Option<&'a String>)
    ensures
        r matches Some(s) ==> str_at(*j, key@) == Some(s@),
        r is None ==> str_at(*j, key@) is None,
{
    match j.get(key) {
        Some(v) => v.as_str(),
        None => None,
    }
}


// ---------------------------------------------------------------------------
// Building documents
// ---------------------------------------------------------------------------

/// The members of an object; none for any other value.
pub open spec fn members(j: Json) -> Seq<(String, Json)> {
    match j {
        Json::Object(ms) => ms@,
        _ => seq![],
    }
}

/// The items of an array; none for any other value.
pub open spec fn items(j: Json) -> Seq<Json> {
    match j {
        Json::Array(a) => a@,
        _ => seq![],
    }
}

/// The value of the `i`th member of an object.
pub open spec fn value_at(j: Json, i: int) -> Json {
    members(j)[i].1
}

/// `j` is the JSON string `s`.
pub open spec fn is_str(j: Json, s: Seq<char>) -> bool {
    j matches Json::Str(x) && x@ == s
}

/// `j` is an object whose members carry exactly `keys`, in this order.
pub open spec fn object_with(j: Json, keys: Seq<Seq<char>>) -> bool {
    &&& j is Object
    &&& members(j).len() == keys.len()
    &&& forall|i: int| 0 <= i < keys.len() ==> (#[trigger] members(j)[i]).0@ == keys[i]
}

/// `j` is the object `{key: s}`.
pub open spec fn str_object(j: Json, key: Seq<char>, s: Seq<char>) -> bool {
    object_with(j, seq![key]) && is_str(value_at(j, 0), s)
}

/// The JSON string holding `s`.
pub fn json_str(s: &str) -> (r: Json)
    ensures
        is_str(r, s@),
{
    Json::Str(String::from_str(s))
}

/// The object `{key: value}`.
pub fn single(key: &str, value: Json) -> (r: Json)
    ensures
        object_with(r, seq![key@]),
        value_at(r, 0) == value,
{
    let r = Json::Object(vec![(String::from_str(key), value)]);
    assert(members(r)[0].0@ == key@);
    r
}

} // verus!
