//! JSON values as bytes: what an object, a list, a text or a number holds.
//!
//! A value inside another is handed out as the bytes that spell it, so that it
//! can be asked the same questions.

use crate::text::sorts_before;
use std::collections::BTreeMap;
use vstd::prelude::*;

verus! {

/// Whether bytes are a JSON value.
pub uninterp spec fn json_valid(b: Seq<u8>) -> bool;

/// The members of an object, by key, each as the bytes of its value.
pub uninterp spec fn json_members(b: Seq<u8>) -> Option<Seq<(Seq<char>, Seq<u8>)>>;

/// The items of a list, each as the bytes of its value.
pub uninterp spec fn json_items(b: Seq<u8>) -> Option<Seq<Seq<u8>>>;

/// The text a value is.
pub uninterp spec fn json_text(b: Seq<u8>) -> Option<Seq<char>>;

/// The whole number of at most eight bytes a value is.
pub uninterp spec fn json_number(b: Seq<u8>) -> Option<u64>;

/// A text, written.
pub uninterp spec fn text_written(s: Seq<char>) -> Seq<u8>;

/// A list of whole numbers, written.
pub uninterp spec fn numbers_written(v: Seq<u64>) -> Seq<u8>;

/// An object with members, each given as the bytes of its value, written.
pub uninterp spec fn object_written(given: Seq<(Seq<char>, Seq<u8>)>) -> Seq<u8>;

/// Members as plain values.
pub open spec fn member_views(v: Seq<(String, Vec<u8>)>) -> Seq<(Seq<char>, Seq<u8>)> {
    Seq::new(v.len(), |i: int| (v[i].0@, v[i].1@))
}

/// Members as plain values, if there are any.
pub open spec fn members_seen(r: Option<Vec<(String, Vec<u8>)>>) -> Option<
    Seq<(Seq<char>, Seq<u8>)>,
> {
    match r {
        Some(v) => Some(member_views(v@)),
        None => None,
    }
}

/// Lists of bytes as plain values.
pub open spec fn byte_views(v: Seq<Vec<u8>>) -> Seq<Seq<u8>> {
    Seq::new(v.len(), |i: int| v[i]@)
}

/// Items as plain values, if there are any.
pub open spec fn items_seen(r: Option<Vec<Vec<u8>>>) -> Option<Seq<Seq<u8>>> {
    match r {
        Some(v) => Some(byte_views(v@)),
        None => None,
    }
}

/// A text as a plain value, if there is one.
pub open spec fn text_seen(r: Option<String>) -> Option<Seq<char>> {
    match r {
        Some(s) => Some(s@),
        None => None,
    }
}

/// Whether keys ascend.
pub open spec fn keys_ascend(v: Seq<(Seq<char>, Seq<u8>)>) -> bool {
    forall|i: int, j: int|
        0 <= i < j < v.len() ==> sorts_before((#[trigger] v[i]).0, (#[trigger] v[j]).0)
}

/// `serde_json::from_slice` into any value: whether the bytes are JSON.
#[verifier::external_body]
pub(crate) fn is_json(b: &[u8]) -> (r: bool)
    ensures
        r == json_valid(b@),
{
    serde_json::from_slice::<serde_json::Value>(b).is_ok()
}

/// `serde_json::from_slice` into a sorted map of values, each value written back
/// with `serde_json::to_vec`: the members of an object in the order of their
/// keys, each key once, or nothing for bytes that are no object.
#[verifier::external_body]
pub(crate) fn members(b: &[u8]) -> (r: Option<Vec<(String, Vec<u8>)>>)
    ensures
        members_seen(r) == json_members(b@),
        r matches Some(v) ==> keys_ascend(member_views(v@)),
{
    let m: BTreeMap<String, serde_json::Value> = serde_json::from_slice(b).ok()?;
    let mut out = Vec::new();
    for (k, v) in m {
        out.push((k, serde_json::to_vec(&v).ok()?));
    }
    Some(out)
}

/// `serde_json::from_slice` into a list of values, each written back with
/// `serde_json::to_vec`: the items of a list, or nothing for bytes that are no
/// list.
#[verifier::external_body]
pub(crate) fn items(b: &[u8]) -> (r: Option<Vec<Vec<u8>>>)
    ensures
        items_seen(r) == json_items(b@),
{
    let m: Vec<serde_json::Value> = serde_json::from_slice(b).ok()?;
    let mut out = Vec::new();
    for v in m {
        out.push(serde_json::to_vec(&v).ok()?);
    }
    Some(out)
}

/// `serde_json::from_slice` into a string: the text a value is, or nothing for a
/// value that is no text.
#[verifier::external_body]
pub(crate) fn text(b: &[u8]) -> (r: Option<String>)
    ensures
        text_seen(r) == json_text(b@),
{
    serde_json::from_slice(b).ok()
}

/// `serde_json::from_slice` into a whole number: the number a value is, or
/// nothing for a value that is no whole number of at most eight bytes.
#[verifier::external_body]
pub(crate) fn number(b: &[u8]) -> (r: Option<u64>)
    ensures
        r == json_number(b@),
{
    serde_json::from_slice(b).ok()
}

/// Whether two values answer every question here alike, values inside them up
/// to a depth too.
pub open spec fn reads_alike(a: Seq<u8>, b: Seq<u8>, depth: nat) -> bool
    decreases depth,
{
    &&& json_text(a) == json_text(b)
    &&& json_number(a) == json_number(b)
    &&& depth > 0 ==> match (json_items(a), json_items(b)) {
        (Some(x), Some(y)) => x.len() == y.len() && forall|i: int|
            0 <= i < x.len() ==> reads_alike(#[trigger] x[i], y[i], (depth - 1) as nat),
        (None, None) => true,
        _ => false,
    }
    &&& depth > 0 ==> match (json_members(a), json_members(b)) {
        (Some(x), Some(y)) => x.len() == y.len() && forall|i: int|
            0 <= i < x.len() ==> (#[trigger] x[i]).0 == y[i].0 && reads_alike(
                x[i].1,
                y[i].1,
                (depth - 1) as nat,
            ),
        (None, None) => true,
        _ => false,
    }
}

/// Whether a value is a text, a whole number, or a list or an object of such
/// values nested no deeper than this.
pub open spec fn shallow(b: Seq<u8>, depth: nat) -> bool
    decreases depth,
{
    ||| json_text(b) is Some
    ||| json_number(b) is Some
    ||| depth > 0 && json_items(b) is Some && forall|i: int|
        0 <= i < json_items(b)->Some_0.len() ==> shallow(
            #[trigger] json_items(b)->Some_0[i],
            (depth - 1) as nat,
        )
    ||| depth > 0 && json_members(b) is Some && forall|i: int|
        0 <= i < json_members(b)->Some_0.len() ==> shallow(
            (#[trigger] json_members(b)->Some_0[i]).1,
            (depth - 1) as nat,
        )
}

/// What reads like a shallow value is one.
pub proof fn lemma_alike_shallow(a: Seq<u8>, b: Seq<u8>, depth: nat)
    requires
        reads_alike(a, b, depth),
        shallow(b, depth),
    ensures
        shallow(a, depth),
    decreases depth,
{
    if depth > 0 {
        if json_items(b) is Some && json_items(a) is Some {
            let x = json_items(a)->Some_0;
            let y = json_items(b)->Some_0;
            assert forall|i: int| 0 <= i < x.len() && shallow(y[i], (depth - 1) as nat) implies shallow(
                #[trigger] x[i],
                (depth - 1) as nat,
            ) by {
                lemma_alike_shallow(x[i], y[i], (depth - 1) as nat);
            }
        }
        if json_members(b) is Some && json_members(a) is Some {
            let x = json_members(a)->Some_0;
            let y = json_members(b)->Some_0;
            assert forall|i: int| 0 <= i < x.len() && shallow(y[i].1, (depth - 1) as nat) implies shallow(
                (#[trigger] x[i]).1,
                (depth - 1) as nat,
            ) by {
                lemma_alike_shallow(x[i].1, y[i].1, (depth - 1) as nat);
            }
        }
    }
}

/// So many spaces.
pub open spec fn spaces(n: nat) -> Seq<u8> {
    Seq::new(n, |i: int| 32u8)
}

/// Whether the members of an object are the ones given: the same keys, and
/// values that read alike however deep one looks.
pub open spec fn holds_members(
    found: Option<Seq<(Seq<char>, Seq<u8>)>>,
    given: Seq<(Seq<char>, Seq<u8>)>,
) -> bool {
    &&& found is Some && found->Some_0.len() == given.len()
    &&& forall|i: int|
        0 <= i < given.len() ==> (#[trigger] found->Some_0[i]).0 == given[i].0
    &&& forall|i: int, depth: nat|
        0 <= i < given.len() ==> #[trigger] reads_alike(found->Some_0[i].1, given[i].1, depth)
}

/// Whether the items of a list are the numbers given.
pub open spec fn holds_numbers(found: Option<Seq<Seq<u8>>>, given: Seq<u64>) -> bool {
    found is Some && found->Some_0.len() == given.len() && forall|i: int|
        0 <= i < given.len() ==> json_number(#[trigger] found->Some_0[i]) == Some(given[i])
}

/// `serde_json::to_vec` of a text: the same bytes for the same text, which read
/// back as it.
#[verifier::external_body]
pub(crate) fn write_text(s: &str) -> (r: Vec<u8>)
    ensures
        r@ == text_written(s@),
        json_text(r@) == Some(s@),
{
    serde_json::to_vec(s).unwrap_or_default()
}

/// `serde_json::to_vec` of a list of whole numbers: the same bytes for the same
/// numbers, which read back as them.
#[verifier::external_body]
pub(crate) fn write_numbers(v: &Vec<u64>) -> (r: Vec<u8>)
    ensures
        r@ == numbers_written(v@),
        holds_numbers(json_items(r@), v@),
{
    serde_json::to_vec(v).unwrap_or_default()
}

/// `serde_json::to_vec` of a `serde_json::Map`: an object with the members given,
/// whose keys ascend and whose values are shallow, since values nested too deep
/// are refused when they are read back. The same members give the same bytes,
/// which read back as them, with any number of spaces behind.
#[verifier::external_body]
pub(crate) fn write_object(given: &Vec<(String, Vec<u8>)>) -> (r: Vec<u8>)
    requires
        keys_ascend(member_views(given@)),
        forall|i: int| 0 <= i < given@.len() ==> shallow((#[trigger] given@[i]).1@, 3),
    ensures
        r@ == object_written(member_views(given@)),
        forall|n: nat| json_valid(r@ + #[trigger] spaces(n)),
        forall|n: nat|
            holds_members(json_members(r@ + #[trigger] spaces(n)), member_views(given@)),
{
    let mut m = serde_json::Map::new();
    for (k, v) in given {
        m.insert(k.clone(), serde_json::from_slice(v).unwrap_or_default());
    }
    serde_json::to_vec(&m).unwrap_or_default()
}

} // verus!
