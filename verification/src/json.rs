//! JSON as plain values.
//!
//! serde_json reads the text; what it read is held here as plain values, so that
//! what is made of a reply can be stated.

use crate::text::{lemma_prefix_step, same_text};
use serde_json::Value;
use vstd::prelude::*;

verus! {

/// A number as it was written: a whole one, or the text of any other.
#[derive(Debug, PartialEq, Eq)]
pub enum Numeral {
    Unsigned(u64),
    Negative(i64),
    Other(String),
}

/// A JSON value.
#[derive(Debug, PartialEq, Eq)]
pub enum Json {
    Null,
    Bool(bool),
    Number(Numeral),
    Text(String),
    List(Vec<Json>),
    /// Names and values, no name twice.
    Object(Vec<(String, Json)>),
}

/// A number as contracts speak of it.
pub enum Figure {
    Unsigned(u64),
    Negative(i64),
    Other(Seq<char>),
}

/// A JSON value as contracts speak of it.
pub enum Tree {
    Null,
    Bool(bool),
    Number(Figure),
    Text(Seq<char>),
    List(Seq<Tree>),
    Object(Seq<(Seq<char>, Tree)>),
}

pub open spec fn figure(n: Numeral) -> Figure {
    match n {
        Numeral::Unsigned(n) => Figure::Unsigned(n),
        Numeral::Negative(n) => Figure::Negative(n),
        Numeral::Other(text) => Figure::Other(text@),
    }
}

pub open spec fn tree(json: Json) -> Tree
    decreases json,
{
    match json {
        Json::Null => Tree::Null,
        Json::Bool(b) => Tree::Bool(b),
        Json::Number(n) => Tree::Number(figure(n)),
        Json::Text(text) => Tree::Text(text@),
        Json::List(items) => Tree::List(trees(items@)),
        Json::Object(fields) => Tree::Object(branches(fields@)),
    }
}

pub open spec fn trees(list: Seq<Json>) -> Seq<Tree>
    decreases list,
{
    if list.len() == 0 {
        Seq::empty()
    } else {
        trees(list.drop_last()).push(tree(list.last()))
    }
}

pub open spec fn branches(list: Seq<(String, Json)>) -> Seq<(Seq<char>, Tree)>
    decreases list,
{
    if list.len() == 0 {
        Seq::empty()
    } else {
        branches(list.drop_last()).push((list.last().0@, tree(list.last().1)))
    }
}

impl View for Json {
    type V = Tree;

    open spec fn view(&self) -> Tree {
        tree(*self)
    }
}

pub proof fn lemma_trees(list: Seq<Json>)
    ensures
        trees(list).len() == list.len(),
        forall|i: int| 0 <= i < list.len() ==> #[trigger] trees(list)[i] == tree(list[i]),
    decreases list.len(),
{
    if list.len() > 0 {
        lemma_trees(list.drop_last());
    }
}

pub proof fn lemma_branches(list: Seq<(String, Json)>)
    ensures
        branches(list).len() == list.len(),
        forall|i: int|
            0 <= i < list.len() ==> #[trigger] branches(list)[i] == (list[i].0@, tree(list[i].1)),
    decreases list.len(),
{
    if list.len() > 0 {
        lemma_branches(list.drop_last());
    }
}

// -------------------------------------------------------------------- reading

/// serde_json's own value.
#[verifier::external_type_specification]
#[verifier::external_body]
pub struct ExValue(serde_json::Value);

/// What a serde_json value holds.
pub uninterp spec fn contents(value: serde_json::Value) -> Tree;

/// What serde_json reads in a text, or what it says is wrong with it.
pub uninterp spec fn json_of(text: Seq<char>) -> Result<Tree, Seq<char>>;

/// `serde_json::from_str`, its error as words. Both depend on the text alone.
#[verifier::external_body]
fn decode(text: &str) -> (r: Result<serde_json::Value, String>)
    ensures
        match r {
            Ok(value) => json_of(text@) == Ok::<Tree, Seq<char>>(contents(value)),
            Err(error) => json_of(text@) == Err::<Tree, Seq<char>>(error@),
        },
{
    serde_json::from_str(text).map_err(|error| error.to_string())
}

/// Tells the variants of `serde_json::Value` apart, all the way down.
#[verifier::external_body]
fn plain(value: serde_json::Value) -> (r: Json)
    ensures
        r@ == contents(value),
{
    match value {
        Value::Null => Json::Null,
        Value::Bool(b) => Json::Bool(b),
        Value::Number(n) => Json::Number(match (n.as_u64(), n.as_i64()) {
            (Some(n), _) => Numeral::Unsigned(n),
            (None, Some(n)) => Numeral::Negative(n),
            (None, None) => Numeral::Other(n.to_string()),
        }),
        Value::String(text) => Json::Text(text),
        Value::Array(items) => Json::List(items.into_iter().map(plain).collect()),
        Value::Object(map) => Json::Object(map.into_iter().map(|(k, v)| (k, plain(v))).collect()),
    }
}

/// Reads a JSON text.
pub fn read_json(text: &str) -> (r: Result<Json, String>)
    ensures
        match json_of(text@) {
            Ok(tree) => r matches Ok(json) && json@ == tree,
            Err(error) => r matches Err(e) && e@ == error,
        },
{
    match decode(text) {
        Ok(value) => Ok(plain(value)),
        Err(error) => Err(error),
    }
}

// -------------------------------------------------------------------- looking

/// The first value under a name, from the `i`th field on.
pub open spec fn field_from(fields: Seq<(Seq<char>, Tree)>, name: Seq<char>, i: int) -> Option<Tree>
    decreases fields.len() - i,
{
    if i < 0 || i >= fields.len() {
        None
    } else if fields[i].0 == name {
        Some(fields[i].1)
    } else {
        field_from(fields, name, i + 1)
    }
}

/// A field whose name no earlier one has is the one found under it.
pub proof fn lemma_named(fields: Seq<(Seq<char>, Tree)>, at: int)
    requires
        0 <= at < fields.len(),
        forall|k: int| 0 <= k < at ==> (#[trigger] fields[k]).0 != fields[at].0,
    ensures
        field_from(fields, fields[at].0, 0) == Some(fields[at].1),
{
    lemma_named_from(fields, at, 0);
}

proof fn lemma_named_from(fields: Seq<(Seq<char>, Tree)>, at: int, i: int)
    requires
        0 <= i <= at < fields.len(),
        forall|k: int| 0 <= k < at ==> (#[trigger] fields[k]).0 != fields[at].0,
    ensures
        field_from(fields, fields[at].0, i) == Some(fields[at].1),
    decreases at - i,
{
    if i < at {
        assert(fields[i].0 != fields[at].0);
        lemma_named_from(fields, at, i + 1);
    }
}

/// The value under a name, in an object that has one.
pub open spec fn field(tree: Tree, name: Seq<char>) -> Option<Tree> {
    match tree {
        Tree::Object(fields) => field_from(fields, name, 0),
        _ => None,
    }
}

/// The value under a name, where there is a value to look in.
pub open spec fn field_in(tree: Option<Tree>, name: Seq<char>) -> Option<Tree> {
    match tree {
        Some(tree) => field(tree, name),
        None => None,
    }
}

/// The first value of a list.
pub open spec fn first_in(tree: Option<Tree>) -> Option<Tree> {
    match tree {
        Some(Tree::List(items)) if items.len() > 0 => Some(items[0]),
        _ => None,
    }
}

/// A value that is a text.
pub open spec fn text_in(tree: Option<Tree>) -> Option<Seq<char>> {
    match tree {
        Some(Tree::Text(text)) => Some(text),
        _ => None,
    }
}

pub open spec fn looked_up(r: Option<&Json>, wanted: Option<Tree>) -> bool {
    match wanted {
        Some(tree) => r matches Some(json) && json@ == tree,
        None => r is None,
    }
}

impl Json {
    /// The value under a name.
    pub fn get(&self, name: &str) -> (r: Option<&Json>)
        ensures
            looked_up(r, field(self@, name@)),
    {
        match self {
            Json::Object(fields) => {
                proof {
                    lemma_branches(fields@);
                }
                let ghost all = branches(fields@);
                let mut i: usize = 0;
                while i < fields.len()
                    invariant
                        i <= fields.len(),
                        self@ == Tree::Object(all),
                        all.len() == fields@.len(),
                        forall|k: int|
                            0 <= k < fields@.len() ==> #[trigger] all[k] == (
                                fields@[k].0@,
                                tree(fields@[k].1),
                            ),
                        field_from(all, name@, 0) == field_from(all, name@, i as int),
                    decreases fields.len() - i,
                {
                    assert(all[i as int] == (fields@[i as int].0@, tree(fields@[i as int].1)));
                    if same_text(fields[i].0.as_str(), name) {
                        return Some(&fields[i].1);
                    }
                    i += 1;
                }
                None
            },
            _ => None,
        }
    }

    /// The first value of a list.
    pub fn first(&self) -> (r: Option<&Json>)
        ensures
            looked_up(r, first_in(Some(self@))),
    {
        match self {
            Json::List(items) => {
                proof {
                    lemma_trees(items@);
                }
                if items.len() > 0 {
                    assert(trees(items@)[0] == tree(items@[0]));
                    Some(&items[0])
                } else {
                    None
                }
            },
            _ => None,
        }
    }

    /// The text, of a value that is one.
    pub fn as_text(&self) -> (r: Option<&String>)
        ensures
            match text_in(Some(self@)) {
                Some(text) => r matches Some(t) && t@ == text,
                None => r is None,
            },
    {
        match self {
            Json::Text(text) => Some(text),
            _ => None,
        }
    }
}

/// The value under a name, where there is a value to look in.
pub fn get_in<'a>(json: Option<&'a Json>, name: &str) -> (r: Option<&'a Json>)
    ensures
        looked_up(
            r,
            field_in(
                match json {
                    Some(json) => Some(json@),
                    None => None,
                },
                name@,
            ),
        ),
{
    match json {
        Some(json) => json.get(name),
        None => None,
    }
}

// ------------------------------------------------------------------- changing

/// Where a name first stands among fields, from the `i`th on.
pub open spec fn place_of(fields: Seq<(Seq<char>, Tree)>, name: Seq<char>, i: int) -> Option<int>
    decreases fields.len() - i,
{
    if i < 0 || i >= fields.len() {
        None
    } else if fields[i].0 == name {
        Some(i)
    } else {
        place_of(fields, name, i + 1)
    }
}

pub proof fn lemma_place_of(fields: Seq<(Seq<char>, Tree)>, name: Seq<char>, i: int)
    ensures
        match place_of(fields, name, i) {
            Some(at) => i <= at < fields.len() && 0 <= at && fields[at].0 == name && field_from(
                fields,
                name,
                i,
            ) == Some(fields[at].1),
            None => field_from(fields, name, i) is None,
        },
    decreases fields.len() - i,
{
    if 0 <= i < fields.len() && fields[i].0 != name {
        lemma_place_of(fields, name, i + 1);
    }
}

/// Fields with a name set to a value: in its place when the name is there, at
/// the end when it is not.
pub open spec fn with_field(
    fields: Seq<(Seq<char>, Tree)>,
    name: Seq<char>,
    value: Tree,
) -> Seq<(Seq<char>, Tree)> {
    match place_of(fields, name, 0) {
        Some(at) => fields.update(at, (name, value)),
        None => fields.push((name, value)),
    }
}

/// Whether a field goes by another name.
pub open spec fn not_named(name: Seq<char>) -> spec_fn((Seq<char>, Tree)) -> bool {
    |f: (Seq<char>, Tree)| f.0 != name
}

/// Fields without a name.
pub open spec fn without_field(
    fields: Seq<(Seq<char>, Tree)>,
    name: Seq<char>,
) -> Seq<(Seq<char>, Tree)> {
    fields.filter(not_named(name))
}

pub fn position(fields: &Vec<(String, Json)>, name: &str) -> (r: Option<usize>)
    ensures
        match place_of(branches(fields@), name@, 0) {
            Some(at) => r matches Some(k) && k == at && k < fields.len(),
            None => r is None,
        },
{
    proof {
        lemma_branches(fields@);
    }
    let ghost all = branches(fields@);
    let mut i: usize = 0;
    while i < fields.len()
        invariant
            i <= fields.len(),
            all == branches(fields@),
            all.len() == fields@.len(),
            forall|k: int|
                0 <= k < fields@.len() ==> #[trigger] all[k] == (
                    fields@[k].0@,
                    tree(fields@[k].1),
                ),
            place_of(all, name@, 0) == place_of(all, name@, i as int),
        decreases fields.len() - i,
    {
        assert(all[i as int] == (fields@[i as int].0@, tree(fields@[i as int].1)));
        if same_text(fields[i].0.as_str(), name) {
            return Some(i);
        }
        i += 1;
    }
    None
}

pub fn set_field(fields: &mut Vec<(String, Json)>, name: &str, value: Json)
    ensures
        branches(final(fields)@) == with_field(branches(old(fields)@), name@, value@),
{
    let ghost before = fields@;
    proof {
        lemma_branches(before);
        lemma_place_of(branches(before), name@, 0);
    }
    match position(fields, name) {
        Some(at) => {
            fields.remove(at);
            fields.insert(at, (name.to_owned(), value));
        },
        None => {
            fields.push((name.to_owned(), value));
        },
    }
    proof {
        lemma_branches(fields@);
        assert(branches(fields@) =~= with_field(branches(before), name@, value@));
    }
}

pub fn remove_field(fields: Vec<(String, Json)>, name: &str) -> (r: Vec<(String, Json)>)
    ensures
        branches(r@) == without_field(branches(fields@), name@),
{
    let ghost all = branches(fields@);
    let ghost keep = not_named(name@);
    let mut out: Vec<(String, Json)> = Vec::new();
    proof {
        lemma_branches(fields@);
        reveal(Seq::filter);
    }
    assert(branches(out@) =~= all.take(0).filter(keep));
    for one in it: fields
        invariant
            all == branches(it.seq()),
            all.len() == it.seq().len(),
            forall|k: int|
                0 <= k < it.seq().len() ==> #[trigger] all[k] == (
                    it.seq()[k].0@,
                    tree(it.seq()[k].1),
                ),
            keep == not_named(name@),
            branches(out@) == all.take(it.index() as int).filter(keep),
    {
        proof {
            lemma_prefix_step(all, it.index() as int);
            reveal(Seq::filter);
            assert(all[it.index() as int] == (one.0@, tree(one.1)));
        }
        if !same_text(one.0.as_str(), name) {
            let ghost before = out@;
            out.push(one);
            assert(out@.drop_last() =~= before);
        }
    }
    assert(all.take(all.len() as int) =~= all);
    out
}

impl Clone for Numeral {
    fn clone(&self) -> (r: Numeral)
        ensures
            figure(r) == figure(*self),
    {
        match self {
            Numeral::Unsigned(n) => Numeral::Unsigned(*n),
            Numeral::Negative(n) => Numeral::Negative(*n),
            Numeral::Other(text) => Numeral::Other(text.clone()),
        }
    }
}

impl Clone for Json {
    fn clone(&self) -> (r: Json)
        ensures
            r@ == self@,
    {
        copy(self)
    }
}

fn copy(json: &Json) -> (r: Json)
    ensures
        r@ == json@,
    decreases json,
{
    match json {
        Json::Null => Json::Null,
        Json::Bool(b) => Json::Bool(*b),
        Json::Number(n) => Json::Number(n.clone()),
        Json::Text(text) => Json::Text(text.clone()),
        Json::List(items) => {
            let mut out: Vec<Json> = Vec::new();
            let mut i: usize = 0;
            proof {
                lemma_trees(items@);
            }
            while i < items.len()
                invariant
                    i <= items.len(),
                    *json == Json::List(*items),
                    out.len() == i,
                    forall|k: int| 0 <= k < i ==> tree(#[trigger] out@[k]) == tree(items@[k]),
                decreases items.len() - i,
            {
                assert(decreases_to!(*json => json->List_0));
                assert(decreases_to!(*items => items@));
                assert(decreases_to!(items@ => items@[i as int]));
                out.push(copy(&items[i]));
                i += 1;
            }
            proof {
                lemma_trees(out@);
                assert(trees(out@) =~= trees(items@));
            }
            Json::List(out)
        },
        Json::Object(fields) => {
            let mut out: Vec<(String, Json)> = Vec::new();
            let mut i: usize = 0;
            proof {
                lemma_branches(fields@);
            }
            while i < fields.len()
                invariant
                    i <= fields.len(),
                    *json == Json::Object(*fields),
                    out.len() == i,
                    forall|k: int|
                        0 <= k < i ==> (#[trigger] out@[k]).0@ == fields@[k].0@ && tree(out@[k].1)
                            == tree(fields@[k].1),
                decreases fields.len() - i,
            {
                assert(decreases_to!(*json => json->Object_0));
                assert(decreases_to!(*fields => fields@));
                assert(decreases_to!(fields@ => fields@[i as int]));
                assert(decreases_to!(fields@[i as int] => fields@[i as int].1));
                out.push((fields[i].0.clone(), copy(&fields[i].1)));
                i += 1;
            }
            proof {
                lemma_branches(out@);
                assert(branches(out@) =~= branches(fields@));
            }
            Json::Object(out)
        },
    }
}

} // verus!
