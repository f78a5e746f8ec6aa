//! Reading the `type` of one record.

use vstd::prelude::*;

verus! {

#[verifier::external_type_specification]
#[verifier::external_body]
pub struct ExJsonError(serde_json::Error);

/// The members of the JSON object encoded in `line`, each as its key and the
/// raw bytes of its value, or `None` where `line` is no JSON object.
pub uninterp spec fn json_members(line: Seq<u8>) -> Option<Seq<(Seq<char>, Seq<u8>)>>;

/// The text of the JSON string encoded in `raw`, or `None` where `raw` is no
/// JSON string.
pub uninterp spec fn json_string(raw: Seq<u8>) -> Option<Seq<char>>;

/// The key of the one member that is read.
pub open spec fn type_key() -> Seq<char> {
    seq!['t', 'y', 'p', 'e']
}

/// The raw value of the first member keyed `key`.
pub open spec fn member_value(ms: Seq<(Seq<char>, Seq<u8>)>, key: Seq<char>) -> Option<Seq<u8>>
    decreases ms.len(),
{
    if ms.len() == 0 {
        None
    } else if ms[0].0 == key {
        Some(ms[0].1)
    } else {
        member_value(ms.drop_first(), key)
    }
}

/// The members as keys and raw value bytes.
pub open spec fn members_view(v: Seq<(String, Vec<u8>)>) -> Seq<(Seq<char>, Seq<u8>)> {
    v.map_values(|e: (String, Vec<u8>)| (e.0@, e.1@))
}

/// The text of the `type` member of the JSON object encoded in `line`, or
/// `None` where `line` is no JSON object, has no `type` member, or that
/// member is no string. The other members are skipped, not decoded.
pub open spec fn message_type(line: Seq<u8>) -> Option<Seq<char>> {
    match json_members(line) {
        Some(ms) => match member_value(ms, type_key()) {
            Some(raw) => json_string(raw),
            None => None,
        },
        None => None,
    }
}

/// Relies on serde_json::from_slice into a `BTreeMap<String, Box<RawValue>>`
/// to split a JSON object into its members, whose values are skipped
/// unchecked, and on RawValue::get for the raw text of each value.
#[verifier::external_body]
fn decode_members(line: &[u8]) -> (r: Result<Vec<(String, Vec<u8>)>, serde_json::Error>)
    ensures
        r is Ok <==> json_members(line@) is Some,
        r matches Ok(v) ==> json_members(line@) == Some(members_view(v@)),
{
    let members: std::collections::BTreeMap<String, Box<serde_json::value::RawValue>> =
        serde_json::from_slice(line)?;
    Ok(members.into_iter().map(|(k, v)| (k, v.get().as_bytes().to_vec())).collect())
}

/// Relies on serde_json::from_slice to decode one JSON string.
#[verifier::external_body]
fn decode_string(raw: &[u8]) -> (r: Result<String, serde_json::Error>)
    ensures
        r is Ok <==> json_string(raw@) is Some,
        r matches Ok(t) ==> json_string(raw@) == Some(t@),
{
    serde_json::from_slice(raw)
}

/// Relies on serde::de::Error::missing_field for serde_json::Error: the
/// diagnostic for an object that lacks the member `field`.
#[verifier::external_body]
fn missing_field_error(field: &'static str) -> (r: serde_json::Error) {
    <serde_json::Error as serde::de::Error>::missing_field(field)
}

/// The first member keyed `key` is the one at `i`, or there is none where
/// `i` is the number of members.
pub proof fn lemma_member_value(ms: Seq<(Seq<char>, Seq<u8>)>, key: Seq<char>, i: int)
    requires
        0 <= i <= ms.len(),
        forall|j: int| 0 <= j < i ==> ms[j].0 != key,
        i < ms.len() ==> ms[i].0 == key,
    ensures
        member_value(ms, key) == if i < ms.len() {
            Some(ms[i].1)
        } else {
            None
        },
    decreases ms.len(),
{
    if ms.len() > 0 && i > 0 {
        assert(ms[0].0 != key);
        lemma_member_value(ms.drop_first(), key, i - 1);
    }
}

/// One record, reduced to the one member that is read from it.
#[derive(Debug)]
pub struct Message {
    /// The record's `type`.
    pub type_: String,
}

impl Message {
    /// Decodes the `type` member of one raw line; the error is the decoder's
    /// diagnostic, or a missing-field one where the object has no `type`.
    pub fn try_from(line: &[u8]) -> (r: Result<Message, serde_json::Error>)
        ensures
            r is Ok <==> message_type(line@) is Some,
            r matches Ok(m) ==> message_type(line@) == Some(m.type_@),
    {
        let members = match decode_members(line) {
            Ok(members) => members,
            Err(e) => return Err(e),
        };
        let ghost ms = members_view(members@);
        let key = String::from_str("type");
        proof {
            reveal_strlit("type");
            assert(key@ =~= type_key());
        }
        let mut i: usize = 0;
        while i < members.len()
            invariant
                i <= members@.len(),
                ms == members_view(members@),
                key@ == type_key(),
                json_members(line@) == Some(ms),
                forall|j: int| 0 <= j < i ==> ms[j].0 != type_key(),
            decreases members@.len() - i,
        {
            if members[i].0 == key {
                proof {
                    lemma_member_value(ms, type_key(), i as int);
                }
                return match decode_string(&members[i].1) {
                    Ok(t) => Ok(Message { type_: t }),
                    Err(e) => Err(e),
                };
            }
            i = i + 1;
        }
        proof {
            lemma_member_value(ms, type_key(), i as int);
        }
        Err(missing_field_error("type"))
    }
}

/// The failure of a whole run: the first line that is not a record.
#[derive(Debug)]
pub struct InvalidMessageError {
    /// The position of the line, counted from 1.
    pub line_number: usize,
    /// The line's raw bytes, without its terminator.
    pub line: Vec<u8>,
    /// The decoder's diagnostic for the line.
    pub cause: serde_json::Error,
}

} // verus!
