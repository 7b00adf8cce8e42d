//! Single values out of JSON text, and JSON text of a few members.

use crate::text;
use vstd::prelude::*;
use vstd::string::*;

verus! {

/// The string at a JSON pointer of a document, when the bytes are a document and
/// there is a string.
pub uninterp spec fn json_text_at(raw: Seq<u8>, path: Seq<char>) -> Option<Seq<char>>;

/// The unsigned number at a JSON pointer of a document, when it fits in 64 bits.
pub uninterp spec fn json_number_at(raw: Seq<u8>, path: Seq<char>) -> Option<u64>;

/// The strings at a JSON pointer of every element of the array at another pointer, when
/// there is an array; nothing for an element without such a string.
pub uninterp spec fn json_texts_at(raw: Seq<u8>, path: Seq<char>, field: Seq<char>) -> Option<
    Seq<Option<Seq<char>>>,
>;

/// Whether there is anything at a JSON pointer of a document.
pub uninterp spec fn json_present(raw: Seq<u8>, path: Seq<char>) -> bool;

/// What `serde_json` says is wrong with bytes that are no document.
pub uninterp spec fn json_fault(raw: Seq<u8>) -> Option<Seq<char>>;

/// The text of an object with members that are strings and members that are objects of
/// numbers and strings, in that order.
pub uninterp spec fn json_written(texts: Seq<(Seq<char>, Seq<char>)>, parts: Seq<PartV>) -> Seq<
    char,
>;

/// A member that is an object of strings and numbers.
pub struct Part {
    pub name: String,
    pub texts: Vec<(String, String)>,
    pub numbers: Vec<(String, u64)>,
}

/// Model of a member that is an object.
#[verifier::ext_equal]
pub struct PartV {
    pub name: Seq<char>,
    pub texts: Seq<(Seq<char>, Seq<char>)>,
    pub numbers: Seq<(Seq<char>, u64)>,
}

/// Model of members that are strings.
pub open spec fn text_pairs(v: Seq<(String, String)>) -> Seq<(Seq<char>, Seq<char>)> {
    v.map_values(|p: (String, String)| (p.0@, p.1@))
}

/// Model of members that are numbers.
pub open spec fn number_pairs(v: Seq<(String, u64)>) -> Seq<(Seq<char>, u64)> {
    v.map_values(|p: (String, u64)| (p.0@, p.1))
}

impl View for Part {
    type V = PartV;

    open spec fn view(&self) -> PartV {
        PartV {
            name: self.name@,
            texts: text_pairs(self.texts@),
            numbers: number_pairs(self.numbers@),
        }
    }
}

/// Model of members that are objects.
pub open spec fn part_views(v: Seq<Part>) -> Seq<PartV> {
    v.map_values(|p: Part| p@)
}

/// The pointer to a member of an object.
pub open spec fn member(key: Seq<char>) -> Seq<char> {
    "/"@ + key
}

/// A name that stands in a pointer as it is.
pub open spec fn plain(key: Seq<char>) -> bool {
    forall|i: int| 0 <= i < key.len() ==> #[trigger] key[i] != '/' && key[i] != '~'
}

/// The names of members of an object.
pub open spec fn part_names(p: PartV) -> Seq<Seq<char>> {
    p.texts.map_values(|t: (Seq<char>, Seq<char>)| t.0) + p.numbers.map_values(
        |n: (Seq<char>, u64)| n.0,
    )
}

/// The names of members of a document.
pub open spec fn names_of(texts: Seq<(Seq<char>, Seq<char>)>, parts: Seq<PartV>) -> Seq<Seq<char>> {
    texts.map_values(|t: (Seq<char>, Seq<char>)| t.0) + parts.map_values(|p: PartV| p.name)
}

/// Names that are all different and stand in pointers as they are.
pub open spec fn tidy(names: Seq<Seq<char>>) -> bool {
    &&& names.no_duplicates()
    &&& forall|i: int| 0 <= i < names.len() ==> plain(#[trigger] names[i])
}

/// Whether a document reads as the members it was written from.
pub open spec fn reads_as(
    raw: Seq<u8>,
    texts: Seq<(Seq<char>, Seq<char>)>,
    parts: Seq<PartV>,
) -> bool {
    &&& forall|i: int|
        0 <= i < texts.len() ==> json_text_at(raw, member((#[trigger] texts[i]).0)) == Some(
            texts[i].1,
        )
    &&& forall|i: int, j: int|
        #![trigger parts[i].texts[j]]
        0 <= i < parts.len() && 0 <= j < parts[i].texts.len() ==> json_text_at(
            raw,
            member(parts[i].name) + member(parts[i].texts[j].0),
        ) == Some(parts[i].texts[j].1)
    &&& forall|i: int, j: int|
        #![trigger parts[i].numbers[j]]
        0 <= i < parts.len() && 0 <= j < parts[i].numbers.len() ==> json_number_at(
            raw,
            member(parts[i].name) + member(parts[i].numbers[j].0),
        ) == Some(parts[i].numbers[j].1)
}

/// `serde_json::from_slice` into a `Value`, then `Value::pointer` and
/// `Value::as_str`: the string at a pointer, a function of bytes and pointer alone.
#[verifier::external_body]
pub(crate) fn text_at(raw: &[u8], path: &str) -> (r: Option<String>)
    ensures
        match r {
            Some(s) => json_text_at(raw@, path@) == Some(s@),
            None => json_text_at(raw@, path@) is None,
        },
{
    let doc: serde_json::Value = serde_json::from_slice(raw).ok()?;
    doc.pointer(path)?.as_str().map(String::from)
}

/// `serde_json::from_slice` into a `Value`, then `Value::pointer` and
/// `Value::as_u64`: the number at a pointer, a function of bytes and pointer alone.
#[verifier::external_body]
pub(crate) fn number_at(raw: &[u8], path: &str) -> (r: Option<u64>)
    ensures
        r == json_number_at(raw@, path@),
{
    let doc: serde_json::Value = serde_json::from_slice(raw).ok()?;
    doc.pointer(path)?.as_u64()
}

/// Models of optional texts.
pub open spec fn optional_texts(v: Seq<Option<String>>) -> Seq<Option<Seq<char>>> {
    v.map_values(
        |t: Option<String>|
            match t {
                Some(s) => Some(s@),
                None => None,
            },
    )
}

/// `serde_json::from_slice` into a `Value`, then `Value::pointer` and `Value::as_array`,
/// and of each element `Value::pointer` and `Value::as_str`: a function of bytes and
/// pointers alone.
#[verifier::external_body]
pub(crate) fn texts_at(raw: &[u8], path: &str, field: &str) -> (r: Option<Vec<Option<String>>>)
    ensures
        match r {
            Some(v) => json_texts_at(raw@, path@, field@) == Some(optional_texts(v@)),
            None => json_texts_at(raw@, path@, field@) is None,
        },
{
    let doc: serde_json::Value = serde_json::from_slice(raw).ok()?;
    let list = doc.pointer(path)?.as_array()?;
    Some(list.iter().map(|v| v.pointer(field).and_then(|t| t.as_str()).map(String::from)).collect())
}

/// `serde_json::from_slice` into a `Value`, then `Value::pointer`: whether there is
/// anything at a pointer, a function of bytes and pointer alone.
#[verifier::external_body]
pub(crate) fn present_at(raw: &[u8], path: &str) -> (r: bool)
    ensures
        r == json_present(raw@, path@),
{
    serde_json::from_slice::<serde_json::Value>(raw).is_ok_and(|d| d.pointer(path).is_some())
}

/// `serde_json::from_slice` into a `Value`: the message of its error, a function of the
/// bytes alone. There is none exactly when the bytes are a document, which an empty pointer
/// points to.
#[verifier::external_body]
pub(crate) fn fault_in(raw: &[u8]) -> (r: Option<String>)
    ensures
        match r {
            Some(e) => json_fault(raw@) == Some(e@),
            None => json_fault(raw@) is None,
        },
        r is None <==> json_present(raw@, ""@),
{
    serde_json::from_slice::<serde_json::Value>(raw).err().map(|e| e.to_string())
}

/// `serde_json::Map` filled with members, as a `serde_json::Value` written out in their
/// order: a function of the members alone. The text is never empty, and read again it gives back
/// every member.
#[verifier::external_body]
pub(crate) fn write_members(texts: &Vec<(String, String)>, parts: &Vec<Part>) -> (r: String)
    requires
        tidy(names_of(text_pairs(texts@), part_views(parts@))),
        forall|i: int| 0 <= i < parts@.len() ==> tidy(part_names((#[trigger] parts@[i])@)),
    ensures
        r@ == json_written(text_pairs(texts@), part_views(parts@)),
        r@.len() > 0,
        reads_as(text::utf8(r@), text_pairs(texts@), part_views(parts@)),
{
    let mut doc = serde_json::Map::new();
    for (k, t) in texts {
        doc.insert(k.clone(), serde_json::Value::from(t.as_str()));
    }
    for p in parts {
        let mut m = serde_json::Map::new();
        m.extend(p.numbers.iter().map(|(k, n)| (k.clone(), serde_json::Value::from(*n))));
        m.extend(p.texts.iter().map(|(k, t)| (k.clone(), serde_json::Value::from(t.as_str()))));
        doc.insert(p.name.clone(), serde_json::Value::Object(m));
    }
    serde_json::Value::Object(doc).to_string()
}

} // verus!
