//! JSON objects as far as the agent reads and writes them: members with a
//! name and a plain value.

use crate::text::same;
use vstd::prelude::*;

verus! {

/// A JSON value without structure.
#[derive(Debug)]
pub enum Scalar {
    Null,
    Bool(bool),
    /// A whole number that is not negative.
    UInt(u64),
    Str(String),
    /// A value of any other kind, which nothing here looks into.
    Other,
}

pub enum ScalarView {
    Null,
    Bool(bool),
    UInt(u64),
    Str(Seq<char>),
    Other,
}

impl View for Scalar {
    type V = ScalarView;

    open spec fn view(&self) -> ScalarView {
        match self {
            Scalar::Null => ScalarView::Null,
            Scalar::Bool(b) => ScalarView::Bool(*b),
            Scalar::UInt(n) => ScalarView::UInt(*n),
            Scalar::Str(s) => ScalarView::Str(s@),
            Scalar::Other => ScalarView::Other,
        }
    }
}

/// A member of a JSON object.
#[derive(Debug)]
pub struct Member {
    pub key: String,
    pub value: Scalar,
}

/// The members of an object, in order.
pub open spec fn members_view(members: Seq<Member>) -> Seq<(Seq<char>, ScalarView)> {
    Seq::new(members.len(), |i: int| (members[i].key@, members[i].value@))
}

/// A JSON value at the top of a text.
#[derive(Debug)]
pub enum Document {
    Object(Vec<Member>),
    /// A value that is no object, and so has no members.
    Other,
}

impl View for Document {
    type V = Seq<(Seq<char>, ScalarView)>;

    /// The members that the value has.
    open spec fn view(&self) -> Seq<(Seq<char>, ScalarView)> {
        match self {
            Document::Object(members) => members_view(members@),
            Document::Other => seq![],
        }
    }
}

/// The value of the first member called `key`.
pub open spec fn lookup(members: Seq<(Seq<char>, ScalarView)>, key: Seq<char>) -> Option<ScalarView>
    decreases members.len(),
{
    if members.len() == 0 {
        None
    } else if members[0].0 == key {
        Some(members[0].1)
    } else {
        lookup(members.drop_first(), key)
    }
}

/// The text that the member called `key` holds, if it holds text.
pub open spec fn str_member(members: Seq<(Seq<char>, ScalarView)>, key: Seq<char>) -> Option<
    Seq<char>,
> {
    match lookup(members, key) {
        Some(ScalarView::Str(s)) => Some(s),
        _ => None,
    }
}

/// The number that the member called `key` holds, if it holds one.
pub open spec fn u64_member(members: Seq<(Seq<char>, ScalarView)>, key: Seq<char>) -> Option<u64> {
    match lookup(members, key) {
        Some(ScalarView::UInt(n)) => Some(n),
        _ => None,
    }
}

impl Document {
    /// The value of the member called `key`.
    pub fn get(&self, key: &str) -> (res: Option<&Scalar>)
        ensures
            match res {
                Some(value) => lookup(self@, key@) == Some(value@),
                None => lookup(self@, key@) is None,
            },
    {
        match self {
            Document::Object(members) => {
                let mut i: usize = 0;
                assert(self@.skip(0) =~= self@);
                while i < members.len()
                    invariant
                        i <= members@.len(),
                        self@ == members_view(members@),
                        lookup(self@, key@) == lookup(self@.skip(i as int), key@),
                    decreases members@.len() - i,
                {
                    let ghost rest = self@.skip(i as int);
                    assert(rest[0] == self@[i as int]);
                    if same(members[i].key.as_str(), key) {
                        return Some(&members[i].value);
                    }
                    assert(rest.drop_first() =~= self@.skip(i + 1));
                    i += 1;
                }
                assert(self@.skip(i as int).len() == 0);
                None
            },
            Document::Other => None,
        }
    }

    /// The text that the member called `key` holds.
    pub fn get_str(&self, key: &str) -> (res: Option<String>)
        ensures
            match res {
                Some(s) => str_member(self@, key@) == Some(s@),
                None => str_member(self@, key@) is None,
            },
    {
        match self.get(key) {
            Some(Scalar::Str(s)) => Some(s.clone()),
            _ => None,
        }
    }

    /// The number that the member called `key` holds.
    pub fn get_u64(&self, key: &str) -> (res: Option<u64>)
        ensures
            res == u64_member(self@, key@),
    {
        match self.get(key) {
            Some(Scalar::UInt(n)) => Some(*n),
            _ => None,
        }
    }
}

/// What a JSON text says: the members of its value, or why it is no JSON.
pub uninterp spec fn json_document(text: Seq<char>) -> Result<
    Seq<(Seq<char>, ScalarView)>,
    Seq<char>,
>;

/// `serde_json::from_str` reads a JSON value out of the text, or says why
/// there is none. An object's members come in the order in which it holds
/// them. That the same text reads the same each time is all that is said: what
/// a given text reads as is not.
#[verifier::external_body]
pub(crate) fn parse_json(text: &str) -> (res: Result<Document, String>)
    ensures
        match res {
            Ok(document) => json_document(text@) == Ok::<_, Seq<char>>(document@),
            Err(e) => json_document(text@) == Err::<Seq<(Seq<char>, ScalarView)>, _>(e@),
        },
{
    match serde_json::from_str::<serde_json::Value>(text) {
        Ok(serde_json::Value::Object(map)) => Ok(Document::Object(map.into_iter().map(|(key, value)|
            Member { key, value: match value {
                serde_json::Value::Null => Scalar::Null,
                serde_json::Value::Bool(b) => Scalar::Bool(b),
                serde_json::Value::Number(n) => n.as_u64().map_or(Scalar::Other, Scalar::UInt),
                serde_json::Value::String(s) => Scalar::Str(s),
                _ => Scalar::Other,
            } }).collect())),
        Ok(_) => Ok(Document::Other),
        Err(e) => Err(e.to_string()),
    }
}

// ─── What holds of documents ─────────────────────────────────────────────────

/// The first member of a name is the one that counts: what it holds is found,
/// as a text only if it is one, as a number only if it is one.
pub proof fn first_member_counts(
    members: Seq<(Seq<char>, ScalarView)>,
    i: int,
)
    requires
        0 <= i < members.len(),
        forall|j: int| 0 <= j < i ==> (#[trigger] members[j]).0 != members[i].0,
    ensures
        lookup(members, members[i].0) == Some(members[i].1),
        members[i].1 matches ScalarView::Str(s) ==> str_member(members, members[i].0) == Some(s),
        members[i].1 !is Str ==> str_member(members, members[i].0) is None,
        members[i].1 matches ScalarView::UInt(n) ==> u64_member(members, members[i].0) == Some(n),
        members[i].1 !is UInt ==> u64_member(members, members[i].0) is None,
    decreases i,
{
    if i > 0 {
        let rest = members.drop_first();
        assert(members[0].0 != members[i].0);
        assert forall|j: int| 0 <= j < i - 1 implies (#[trigger] rest[j]).0 != rest[i - 1].0 by {
            assert(rest[j] == members[j + 1]);
        }
        first_member_counts(rest, i - 1);
        assert(rest[i - 1] == members[i]);
    }
}

/// Where no member has a name, nothing is found under it.
pub proof fn missing_member_is_not_found(members: Seq<(Seq<char>, ScalarView)>, key: Seq<char>)
    requires
        forall|j: int| 0 <= j < members.len() ==> (#[trigger] members[j]).0 != key,
    ensures
        lookup(members, key) is None,
        str_member(members, key) is None,
        u64_member(members, key) is None,
    decreases members.len(),
{
    if members.len() > 0 {
        let rest = members.drop_first();
        assert forall|j: int| 0 <= j < rest.len() implies (#[trigger] rest[j]).0 != key by {
            assert(rest[j] == members[j + 1]);
        }
        missing_member_is_not_found(rest, key);
        assert(members[0].0 != key);
    }
}

/// The members of a document are those of its object, in their order, each
/// with its name and its value; another value has none.
pub proof fn members_are_those_of_the_object(document: Document)
    ensures
        match document {
            Document::Object(members) => {
                &&& document@.len() == members@.len()
                &&& forall|i: int|
                    0 <= i < members@.len() ==> {
                        &&& (#[trigger] document@[i]).0 == members@[i].key@
                        &&& match members@[i].value {
                            Scalar::Null => document@[i].1 == ScalarView::Null,
                            Scalar::Bool(b) => document@[i].1 == ScalarView::Bool(b),
                            Scalar::UInt(n) => document@[i].1 == ScalarView::UInt(n),
                            Scalar::Str(s) => document@[i].1 == ScalarView::Str(s@),
                            Scalar::Other => document@[i].1 == ScalarView::Other,
                        }
                    }
            },
            Document::Other => document@.len() == 0,
        },
{
}

} // verus!
