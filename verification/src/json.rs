//! JSON values as the library reads them: transcripts, tool calls and
//! streamed completions arrive parsed into this form.
use vstd::prelude::*;

verus! {

/// A JSON value. Numbers keep their textual form; object members keep their
/// order and keys are unique.
#[derive(Debug)]
pub enum Json {
    Null,
    Bool(bool),
    Number(String),
    Str(String),
    Array(Vec<Json>),
    Object(Vec<(String, Json)>),
}

/// The value of the first member of `members` named `key`.
pub open spec fn member(members: Seq<(String, Json)>, key: Seq<char>) -> Option<Json>
    decreases members.len(),
{
    if members.len() == 0 {
        None
    } else if members[0].0@ == key {
        Some(members[0].1)
    } else {
        member(members.drop_first(), key)
    }
}

/// The member `key` of an object; nothing for other values.
pub open spec fn json_get(j: Json, key: Seq<char>) -> Option<Json> {
    match j {
        Json::Object(members) => member(members@, key),
        _ => None,
    }
}

/// The text of a string value.
pub open spec fn json_str(j: Json) -> Option<Seq<char>> {
    match j {
        Json::Str(s) => Some(s@),
        _ => None,
    }
}

/// The member `key` of `j`, if `j` is an object that has one.
pub open spec fn get_opt(j: Option<Json>, key: Seq<char>) -> Option<Json> {
    match j {
        Some(v) => json_get(v, key),
        None => None,
    }
}

/// The text of `j`, if it is a string value.
pub open spec fn str_opt(j: Option<Json>) -> Option<Seq<char>> {
    match j {
        Some(v) => json_str(v),
        None => None,
    }
}

impl Json {
    /// The member `key` of an object value.
    pub fn get(&self, key: &str) -> (r: Option<&Json>)
        ensures
            match r {
                Some(v) => json_get(*self, key@) == Some(*v),
                None => json_get(*self, key@).is_none(),
            },
    {
        match self {
            Json::Object(members) => {
                let mut i: usize = 0;
                assert(members@.skip(0) =~= members@);
                while i < members.len()
                    invariant
                        i <= members@.len(),
                        *self == Json::Object(*members),
                        member(members@, key@) == member(members@.skip(i as int), key@),
                    decreases members.len() - i,
                {
                    assert(members@.skip(i as int).drop_first() =~= members@.skip(i + 1));
                    assert(members@.skip(i as int)[0] == members@[i as int]);
                    if crate::text::str_eq(members[i].0.as_str(), key) {
                        assert(json_get(*self, key@) == Some(members@[i as int].1));
                        return Some(&members[i].1);
                    }
                    i = i + 1;
                }
                None
            },
            _ => None,
        }
    }

    /// The member `key` of an object value, taken out of it.
    pub fn take(self, key: &str) -> (r: Option<Json>)
        ensures
            r == json_get(self, key@),
    {
        let ghost target = json_get(self, key@);
        match self {
            Json::Object(members) => {
                let ghost all = members@;
                assert(target == member(all, key@));
                let mut members = members;
                let mut i: usize = 0;
                assert(all.skip(0) =~= all);
                while i < members.len()
                    invariant
                        members@ == all,
                        i <= all.len(),
                        target == member(all.skip(i as int), key@),
                    ensures
                        members@ == all,
                        i <= all.len(),
                        target == member(all.skip(i as int), key@),
                        i < all.len() ==> all[i as int].0@ == key@,
                    decreases members.len() - i,
                {
                    assert(all.skip(i as int).drop_first() =~= all.skip(i + 1));
                    assert(all.skip(i as int)[0] == all[i as int]);
                    if crate::text::str_eq(members[i].0.as_str(), key) {
                        break;
                    }
                    i = i + 1;
                }
                if i < members.len() {
                    assert(all.skip(i as int)[0] == all[i as int]);
                    assert(target == Some(all[i as int].1));
                    let (_, v) = members.remove(i);
                    Some(v)
                } else {
                    None
                }
            },
            _ => None,
        }
    }

    /// The text of a string value.
    pub fn as_str(&self) -> (r: Option<&str>)
        ensures
            match r {
                Some(s) => json_str(*self) == Some(s@),
                None => json_str(*self).is_none(),
            },
    {
        match self {
            Json::Str(s) => Some(s.as_str()),
            _ => None,
        }
    }

    /// The value of a boolean.
    pub fn as_bool(&self) -> (r: Option<bool>)
        ensures
            r == match *self {
                Json::Bool(b) => Some(b),
                _ => None::<bool>,
            },
    {
        match self {
            Json::Bool(b) => Some(*b),
            _ => None,
        }
    }

    /// The elements of an array.
    pub fn as_array(&self) -> (r: Option<&Vec<Json>>)
        ensures
            match r {
                Some(v) => *self == Json::Array(*v),
                None => !(*self is Array),
            },
    {
        match self {
            Json::Array(v) => Some(v),
            _ => None,
        }
    }

    /// A string value.
    pub fn string(s: &str) -> (j: Json)
        ensures
            json_str(j) == Some(s@),
    {
        Json::Str(s.to_owned())
    }

    /// An object with the given members, in order.
    pub fn object(members: Vec<(String, Json)>) -> (j: Json)
        ensures
            j == Json::Object(members),
    {
        Json::Object(members)
    }
}

} // verus!
