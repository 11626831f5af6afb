use vstd::prelude::*;

use crate::node::{keys_of, Doc, Node};
use crate::path::plain;

verus! {

broadcast use vstd::std_specs::vec::axiom_vec_index_decreases;

#[verifier::external_type_specification]
#[verifier::external_body]
pub struct ExValue(serde_json::Value);

/// The document that a JSON value holds.
pub uninterp spec fn json_doc(v: serde_json::Value) -> Doc;

/// The indented JSON text that encodes a document.
pub uninterp spec fn pretty_text(d: Doc) -> Seq<char>;

/// No key occurs twice in `keys`.
pub open spec fn distinct(keys: Seq<Seq<char>>) -> bool {
    forall|i: int, j: int| 0 <= i < j < keys.len() ==> keys[i] != keys[j]
}

/// Relies on the `serde_json::Value::String` variant: a JSON string holding `s`.
#[verifier::external_body]
fn json_string(s: String) -> (r: serde_json::Value)
    ensures
        json_doc(r) == Doc::Str(s@),
{
    serde_json::Value::String(s)
}

/// Relies on `serde_json::Map`'s `FromIterator`, which with `preserve_order`
/// collects into an insertion-ordered map: with distinct keys, the object
/// holds the entries in the order given.
#[verifier::external_body]
fn json_object(entries: Vec<(String, serde_json::Value)>) -> (r: serde_json::Value)
    ensures
        distinct(entries@.map_values(|e: (String, serde_json::Value)| e.0@)) ==> json_doc(r)
            == Doc::Object(
            entries@.map_values(|e: (String, serde_json::Value)| (e.0@, json_doc(e.1))),
        ),
{
    serde_json::Value::Object(entries.into_iter().collect())
}

/// Relies on `serde_json::to_string_pretty`: the indented JSON text of the
/// value. It writes into a `Vec` and a `Value` has only string keys, so it
/// does not fail.
#[verifier::external_body]
fn to_pretty(v: &serde_json::Value) -> (r: Option<String>)
    ensures
        r is Some,
        r->Some_0@ == pretty_text(json_doc(*v)),
{
    serde_json::to_string_pretty(v).ok()
}

/// The JSON value holding a document made of objects with distinct keys and
/// text leaves; `None` for any other document.
pub fn to_json(n: &Node) -> (r: Option<serde_json::Value>)
    ensures
        plain(n@) <==> r is Some,
        r is Some ==> json_doc(r->Some_0) == n@,
    decreases n,
{
    match n {
        Node::Object(es) => {
            let ghost des = n@->Object_0;
            let mut out: Vec<(String, serde_json::Value)> = Vec::new();
            let mut i: usize = 0;
            while i < es.len()
                invariant
                    i <= es@.len(),
                    des == n@->Object_0,
                    des.len() == es@.len(),
                    *n == Node::Object(*es),
                    out@.len() == i,
                    forall|j: int| 0 <= j < i ==> plain(#[trigger] des[j].1),
                    forall|j: int|
                        0 <= j < i ==> #[trigger] out@[j].0@ == des[j].0 && json_doc(out@[j].1)
                            == des[j].1,
                decreases es@.len() - i,
            {
                assert(des[i as int] == (es@[i as int].0@, es@[i as int].1@));
                match to_json(&es[i].1) {
                    Some(v) => {
                        out.push((es[i].0.clone(), v));
                    },
                    None => {
                        assert(!plain(des[i as int].1));
                        return None;
                    },
                }
                i = i + 1;
            }
            let ghost keys = out@.map_values(|e: (String, serde_json::Value)| e.0@);
            assert(keys =~= keys_of(des));
            if !distinct_keys(&out) {
                proof {
                    let (a, b) = choose|a: int, b: int|
                        0 <= a < b < keys.len() && keys[a] == keys[b];
                    assert(des[a].0 == des[b].0);
                }
                return None;
            }
            assert forall|a: int, b: int| 0 <= a < b < des.len() implies #[trigger] des[a].0
                != #[trigger] des[b].0 by {
                assert(keys[a] != keys[b]);
            }
            let r = json_object(out);
            assert(out@.map_values(|e: (String, serde_json::Value)| (e.0@, json_doc(e.1))) =~= des);
            Some(r)
        },
        Node::Str(s) => Some(json_string(s.clone())),
        _ => None,
    }
}

/// Whether no key occurs twice among the entries.
fn distinct_keys(es: &Vec<(String, serde_json::Value)>) -> (r: bool)
    ensures
        r == distinct(es@.map_values(|e: (String, serde_json::Value)| e.0@)),
{
    let ghost keys = es@.map_values(|e: (String, serde_json::Value)| e.0@);
    let mut i: usize = 0;
    while i < es.len()
        invariant
            i <= es@.len(),
            keys == es@.map_values(|e: (String, serde_json::Value)| e.0@),
            forall|a: int, b: int| 0 <= a < b < keys.len() && a < i ==> keys[a] != keys[b],
        decreases es@.len() - i,
    {
        let mut j: usize = i + 1;
        while j < es.len()
            invariant
                i < j <= es@.len(),
                i < es@.len(),
                keys == es@.map_values(|e: (String, serde_json::Value)| e.0@),
                forall|a: int, b: int| 0 <= a < b < keys.len() && a < i ==> keys[a] != keys[b],
                forall|b: int| i < b < j ==> keys[i as int] != keys[b],
            decreases es@.len() - j,
        {
            if es[i].0 == es[j].0 {
                assert(keys[i as int] == keys[j as int]);
                return false;
            }
            j = j + 1;
        }
        i = i + 1;
    }
    true
}

/// The indented JSON text of a document made of objects with distinct keys
/// and text leaves; `None` for any other document.
pub fn pretty_json(n: &Node) -> (r: Option<String>)
    ensures
        plain(n@) <==> r is Some,
        r is Some ==> r->Some_0@ == pretty_text(n@),
{
    match to_json(n) {
        Some(v) => to_pretty(&v),
        None => None,
    }
}

} // verus!
