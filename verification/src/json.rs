//! JSON values, as the files, the services and the settings hold them. `serde_json` reads and
//! writes their text; what they say is read here.

use serde_json::Value;
use vstd::prelude::*;

use crate::number::{Real, Spelled, SpelledView};
use crate::order::{
    comes_before, precedes, precedes_is_irreflexive, precedes_is_total, precedes_is_transitive,
};
use crate::text::{copy, decimal_of, same, signed, signed_of};

verus! {

/// A JSON value. A number without a fraction is an integer, and one too large for it a natural
/// number; one with a fraction comes with its text. The fields of an object are in the order of
/// their names.
#[derive(Debug, PartialEq, Eq)]
pub enum Json {
    Null,
    Bool(bool),
    Int(i64),
    Nat(u64),
    Fraction(Real, String),
    Text(String),
    List(Vec<Json>),
    Object(Vec<(String, Json)>),
}

/// What a JSON value says.
#[verifier::ext_equal]
pub enum Tree {
    Null,
    Bool(bool),
    Int(int),
    Fraction(Real, Seq<char>),
    Text(Seq<char>),
    List(Seq<Tree>),
    Object(Seq<(Seq<char>, Tree)>),
}

/// What JSON values say, one after another.
pub open spec fn trees(items: Seq<Json>) -> Seq<Tree>
    decreases items,
{
    if items.len() == 0 {
        Seq::empty()
    } else {
        trees(items.drop_last()).push(items.last().tree())
    }
}

/// What the fields of an object say.
pub open spec fn field_trees(fields: Seq<(String, Json)>) -> Seq<(Seq<char>, Tree)>
    decreases fields,
{
    if fields.len() == 0 {
        Seq::empty()
    } else {
        field_trees(fields.drop_last()).push((fields.last().0@, fields.last().1.tree()))
    }
}

impl Json {
    pub open spec fn tree(self) -> Tree
        decreases self,
    {
        match self {
            Json::Null => Tree::Null,
            Json::Bool(yes) => Tree::Bool(yes),
            Json::Int(n) => Tree::Int(n as int),
            Json::Nat(n) => Tree::Int(n as int),
            Json::Fraction(number, text) => Tree::Fraction(number, text@),
            Json::Text(text) => Tree::Text(text@),
            Json::List(items) => Tree::List(trees(items@)),
            Json::Object(fields) => Tree::Object(field_trees(fields@)),
        }
    }
}

pub proof fn lemma_trees(items: Seq<Json>)
    ensures
        trees(items).len() == items.len(),
        forall|i: int| 0 <= i < items.len() ==> #[trigger] trees(items)[i] == items[i].tree(),
    decreases items.len(),
{
    if items.len() > 0 {
        lemma_trees(items.drop_last());
    }
}

pub proof fn lemma_field_trees(fields: Seq<(String, Json)>)
    ensures
        field_trees(fields).len() == fields.len(),
        forall|i: int|
            0 <= i < fields.len() ==> #[trigger] field_trees(fields)[i] == (
                fields[i].0@,
                fields[i].1.tree(),
            ),
    decreases fields.len(),
{
    if fields.len() > 0 {
        lemma_field_trees(fields.drop_last());
    }
}

/// One more value says one more thing.
pub proof fn lemma_trees_push(items: Seq<Json>, item: Json)
    ensures
        trees(items.push(item)) == trees(items).push(item.tree()),
{
    assert(items.push(item).drop_last() =~= items);
}

pub proof fn lemma_field_trees_push(fields: Seq<(String, Json)>, field: (String, Json))
    ensures
        field_trees(fields.push(field)) == field_trees(fields).push((field.0@, field.1.tree())),
{
    assert(fields.push(field).drop_last() =~= fields);
}

/// The field of this name among some.
pub open spec fn named(fields: Seq<(Seq<char>, Tree)>, name: Seq<char>) -> Option<Tree>
    decreases fields.len(),
{
    if fields.len() == 0 {
        None
    } else if fields[0].0 == name {
        Some(fields[0].1)
    } else {
        named(fields.skip(1), name)
    }
}

/// A field is found by its name where no field before it has that name.
pub proof fn a_field_is_found_by_its_name(fields: Seq<(Seq<char>, Tree)>, k: int)
    requires
        0 <= k < fields.len(),
        forall|j: int| 0 <= j < k ==> (#[trigger] fields[j]).0 != fields[k].0,
    ensures
        named(fields, fields[k].0) == Some(fields[k].1),
    decreases k,
{
    if k > 0 {
        let rest = fields.skip(1);
        assert forall|j: int| 0 <= j < k - 1 implies (#[trigger] rest[j]).0 != rest[k - 1].0 by {
            assert(rest[j] == fields[j + 1]);
        }
        assert(fields[0].0 != fields[k].0);
        a_field_is_found_by_its_name(rest, k - 1);
    }
}

/// A field is found only where there is one of that name.
pub proof fn a_field_not_there_is_not_found(fields: Seq<(Seq<char>, Tree)>, name: Seq<char>)
    ensures
        named(fields, name) is None <==> (forall|j: int|
            0 <= j < fields.len() ==> (#[trigger] fields[j]).0 != name),
    decreases fields.len(),
{
    if fields.len() > 0 {
        let rest = fields.skip(1);
        a_field_not_there_is_not_found(rest, name);
        assert forall|j: int| 0 < j < fields.len() implies #[trigger] fields[j] == rest[j - 1] by {}
        if fields[0].0 != name && (forall|j: int|
            0 <= j < rest.len() ==> (#[trigger] rest[j]).0 != name) {
            assert forall|j: int| 0 <= j < fields.len() implies (#[trigger] fields[j]).0
                != name by {
                if j > 0 {
                    assert(rest[j - 1].0 != name);
                }
            }
        }
        if forall|j: int| 0 <= j < fields.len() ==> (#[trigger] fields[j]).0 != name {
            assert(fields[0].0 != name);
            assert forall|j: int| 0 <= j < rest.len() implies (#[trigger] rest[j]).0 != name by {
                assert(fields[j + 1].0 != name);
            }
        }
    }
}

impl Tree {
    /// The field of this name; there is none in what is not an object.
    pub open spec fn field(self, name: Seq<char>) -> Option<Tree> {
        match self {
            Tree::Object(fields) => named(fields, name),
            _ => None,
        }
    }

    pub open spec fn as_text(self) -> Option<Seq<char>> {
        match self {
            Tree::Text(text) => Some(text),
            _ => None,
        }
    }

    pub open spec fn as_bool(self) -> Option<bool> {
        match self {
            Tree::Bool(yes) => Some(yes),
            _ => None,
        }
    }

    pub open spec fn as_list(self) -> Option<Seq<Tree>> {
        match self {
            Tree::List(items) => Some(items),
            _ => None,
        }
    }

    pub open spec fn as_int(self) -> Option<int> {
        match self {
            Tree::Int(n) => if i64::MIN <= n <= i64::MAX {
                Some(n)
            } else {
                None
            },
            _ => None,
        }
    }

    pub open spec fn as_nat(self) -> Option<nat> {
        match self {
            Tree::Int(n) => if n >= 0 {
                Some(n as nat)
            } else {
                None
            },
            _ => None,
        }
    }

    pub open spec fn as_real(self) -> Option<Real> {
        match self {
            Tree::Fraction(number, _) => Some(number),
            Tree::Int(n) => Some(real_of(n)),
            _ => None,
        }
    }

    /// The number it is, with a text it is written as.
    pub open spec fn as_spelled(self) -> Option<SpelledView> {
        match self {
            Tree::Fraction(number, text) => Some(SpelledView { number, text }),
            Tree::Int(n) => Some(SpelledView { number: real_of(n), text: signed(n) + ".0"@ }),
            _ => None,
        }
    }

    pub open spec fn spelled_field(self, name: Seq<char>) -> Option<SpelledView> {
        match self.field(name) {
            Some(value) => value.as_spelled(),
            None => None,
        }
    }

    /// What the field of this name says, where there is one and it is a text.
    pub open spec fn text_field(self, name: Seq<char>) -> Option<Seq<char>> {
        match self.field(name) {
            Some(value) => value.as_text(),
            None => None,
        }
    }

    pub open spec fn int_field(self, name: Seq<char>) -> Option<int> {
        match self.field(name) {
            Some(value) => value.as_int(),
            None => None,
        }
    }

    pub open spec fn nat_field(self, name: Seq<char>) -> Option<nat> {
        match self.field(name) {
            Some(value) => value.as_nat(),
            None => None,
        }
    }

    pub open spec fn real_field(self, name: Seq<char>) -> Option<Real> {
        match self.field(name) {
            Some(value) => value.as_real(),
            None => None,
        }
    }

    pub open spec fn list_field(self, name: Seq<char>) -> Option<Seq<Tree>> {
        match self.field(name) {
            Some(value) => value.as_list(),
            None => None,
        }
    }
}

pub open spec fn spelled_opt(spelled: Option<Spelled>) -> Option<SpelledView> {
    match spelled {
        Some(spelled) => Some(spelled@),
        None => None,
    }
}

/// What an optional value says.
pub open spec fn tree_opt(json: Option<&Json>) -> Option<Tree> {
    match json {
        Some(json) => Some(json.tree()),
        None => None,
    }
}

impl Json {
    /// The field of this name; there is none in what is not an object.
    pub fn get(&self, name: &str) -> (value: Option<&Json>)
        ensures
            tree_opt(value) == self.tree().field(name@),
    {
        match self {
            Json::Object(fields) => {
                let ghost all = field_trees(fields@);
                proof {
                    lemma_field_trees(fields@);
                    assert(all.skip(0) =~= all);
                }
                for i in 0..fields.len()
                    invariant
                        *self == Json::Object(*fields),
                        all == field_trees(fields@),
                        all.len() == fields@.len(),
                        forall|j: int|
                            0 <= j < fields@.len() ==> #[trigger] all[j] == (
                                fields@[j].0@,
                                fields@[j].1.tree(),
                            ),
                        named(all, name@) == named(all.skip(i as int), name@),
                {
                    assert(all.skip(i as int)[0] == all[i as int]);
                    assert(all.skip(i as int).skip(1) =~= all.skip(i + 1));
                    if same(&fields[i].0, name) {
                        return Some(&fields[i].1);
                    }
                }
                None
            },
            _ => None,
        }
    }

    /// Whether it is an object with a field of this name.
    pub fn has_field(&self, name: &str) -> (yes: bool)
        ensures
            yes == (self.tree().field(name@) is Some),
    {
        self.get(name).is_some()
    }

    pub fn is_object(&self) -> (yes: bool)
        ensures
            yes == (self.tree() is Object),
    {
        match self {
            Json::Object(_) => true,
            _ => false,
        }
    }

    pub fn as_str(&self) -> (text: Option<&String>)
        ensures
            match text {
                Some(text) => self.tree().as_text() == Some(text@),
                None => self.tree().as_text() is None,
            },
    {
        match self {
            Json::Text(text) => Some(text),
            _ => None,
        }
    }

    pub fn as_bool(&self) -> (yes: Option<bool>)
        ensures
            yes == self.tree().as_bool(),
    {
        match self {
            Json::Bool(yes) => Some(*yes),
            _ => None,
        }
    }

    pub fn as_array(&self) -> (items: Option<&Vec<Json>>)
        ensures
            match items {
                Some(items) => self.tree().as_list() == Some(trees(items@)) && *self == Json::List(
                    *items,
                ),
                None => self.tree().as_list() is None,
            },
    {
        match self {
            Json::List(items) => Some(items),
            _ => None,
        }
    }

    pub fn as_i64(&self) -> (n: Option<i64>)
        ensures
            match n {
                Some(n) => self.tree().as_int() == Some(n as int),
                None => self.tree().as_int() is None,
            },
    {
        match self {
            Json::Int(n) => Some(*n),
            Json::Nat(n) => {
                if *n <= 0x7fff_ffff_ffff_ffff {
                    Some(*n as i64)
                } else {
                    None
                }
            },
            _ => None,
        }
    }

    pub fn as_u64(&self) -> (n: Option<u64>)
        ensures
            match n {
                Some(n) => self.tree().as_nat() == Some(n as nat),
                None => self.tree().as_nat() is None,
            },
    {
        match self {
            Json::Int(n) => {
                if *n >= 0 {
                    Some(*n as u64)
                } else {
                    None
                }
            },
            Json::Nat(n) => Some(*n),
            _ => None,
        }
    }

    /// The number it is, an integer as the number with a fraction nearest to it.
    pub fn as_real(&self) -> (number: Option<Real>)
        ensures
            number == self.tree().as_real(),
    {
        match self {
            Json::Fraction(number, _) => Some(*number),
            Json::Int(n) => Some(real_of_int(*n)),
            Json::Nat(n) => Some(real_of_nat(*n)),
            _ => None,
        }
    }

    /// The number it is, with a text it is written as.
    pub fn as_spelled(&self) -> (spelled: Option<Spelled>)
        ensures
            spelled_opt(spelled) == self.tree().as_spelled(),
    {
        match self {
            Json::Fraction(number, text) => Some(Spelled { number: *number, text: text.clone() }),
            Json::Int(n) => Some(
                Spelled { number: real_of_int(*n), text: signed_of(*n).concat(".0") },
            ),
            Json::Nat(n) => Some(
                Spelled { number: real_of_nat(*n), text: decimal_of(*n).concat(".0") },
            ),
            _ => None,
        }
    }

    pub fn spelled_field(&self, name: &str) -> (spelled: Option<Spelled>)
        ensures
            spelled_opt(spelled) == self.tree().spelled_field(name@),
    {
        match self.get(name) {
            Some(value) => value.as_spelled(),
            None => None,
        }
    }

    pub fn text_field(&self, name: &str) -> (text: Option<String>)
        ensures
            crate::text::view_opt(text) == self.tree().text_field(name@),
    {
        match self.get(name) {
            Some(value) => match value.as_str() {
                Some(text) => Some(text.clone()),
                None => None,
            },
            None => None,
        }
    }

    pub fn int_field(&self, name: &str) -> (n: Option<i64>)
        ensures
            match n {
                Some(n) => self.tree().int_field(name@) == Some(n as int),
                None => self.tree().int_field(name@) is None,
            },
    {
        match self.get(name) {
            Some(value) => value.as_i64(),
            None => None,
        }
    }

    pub fn real_field(&self, name: &str) -> (number: Option<Real>)
        ensures
            number == self.tree().real_field(name@),
    {
        match self.get(name) {
            Some(value) => value.as_real(),
            None => None,
        }
    }

    pub fn list_field(&self, name: &str) -> (items: Option<&Vec<Json>>)
        ensures
            match items {
                Some(items) => self.tree().list_field(name@) == Some(trees(items@)),
                None => self.tree().list_field(name@) is None,
            },
    {
        match self.get(name) {
            Some(value) => value.as_array(),
            None => None,
        }
    }

    /// A text.
    pub fn text(text: &str) -> (json: Json)
        ensures
            json.tree() == Tree::Text(text@),
    {
        Json::Text(copy(text))
    }

    /// Another value that says the same.
    pub fn copy(&self) -> (copied: Json)
        ensures
            copied.tree() == self.tree(),
        decreases self,
    {
        match self {
            Json::Null => Json::Null,
            Json::Bool(yes) => Json::Bool(*yes),
            Json::Int(n) => Json::Int(*n),
            Json::Nat(n) => Json::Nat(*n),
            Json::Fraction(number, text) => Json::Fraction(*number, text.clone()),
            Json::Text(text) => Json::Text(text.clone()),
            Json::List(items) => {
                let mut list: Vec<Json> = Vec::new();
                for i in 0..items.len()
                    invariant
                        *self == Json::List(*items),
                        trees(list@) == trees(items@.take(i as int)),
                    decreases items@.len() - i,
                {
                    assert(decreases_to!(*self => self->List_0));
                    assert(decreases_to!(*items => items@));
                    assert(decreases_to!(items@ => items@[i as int]));
                    let item = items[i].copy();
                    proof {
                        assert(items@.take(i + 1) =~= items@.take(i as int).push(items@[i as int]));
                        lemma_trees_push(items@.take(i as int), items@[i as int]);
                        lemma_trees_push(list@, item);
                    }
                    list.push(item);
                }
                assert(items@.take(items@.len() as int) =~= items@);
                Json::List(list)
            },
            Json::Object(fields) => {
                let mut list: Vec<(String, Json)> = Vec::new();
                for i in 0..fields.len()
                    invariant
                        *self == Json::Object(*fields),
                        field_trees(list@) == field_trees(fields@.take(i as int)),
                    decreases fields@.len() - i,
                {
                    assert(decreases_to!(*self => self->Object_0));
                    assert(decreases_to!(*fields => fields@));
                    assert(decreases_to!(fields@ => fields@[i as int]));
                    assert(decreases_to!(fields@[i as int] => fields@[i as int].1));
                    let item = fields[i].1.copy();
                    let name = fields[i].0.clone();
                    proof {
                        assert(fields@.take(i + 1) =~= fields@.take(i as int).push(
                            fields@[i as int],
                        ));
                        lemma_field_trees_push(fields@.take(i as int), fields@[i as int]);
                        lemma_field_trees_push(list@, (name, item));
                    }
                    list.push((name, item));
                }
                assert(fields@.take(fields@.len() as int) =~= fields@);
                Json::Object(list)
            },
        }
    }
}

// ---- Through serde_json ------------------------------------------------------------------------

/// The last integer up to which every one is a number with a fraction of its own.
pub const EXACTLY: i64 = 0x20_0000_0000_0000;

/// What `serde_json::Number::as_f64` makes of an integer.
pub uninterp spec fn real_of(n: int) -> Real;

/// `serde_json::Number::as_f64` of an integer: the number with a fraction that stands for it, by
/// its bits. Up to two to the power of 53 it is the integer itself; beyond that which of the
/// nearest numbers it is is not stated.
#[verifier::external_body]
fn real_of_int(n: i64) -> (number: Real)
    ensures
        number == real_of(n as int),
        -EXACTLY <= n <= EXACTLY ==> number.truncated() == n,
{
    Real { bits: serde_json::Number::from(n).as_f64().map(|number| number.to_bits()).unwrap_or(0) }
}

/// `serde_json::Number::as_f64` of a natural number: the number with a fraction that stands for
/// it, by its bits. Up to two to the power of 53 it is the number itself; beyond that which of
/// the nearest numbers it is is not stated.
#[verifier::external_body]
fn real_of_nat(n: u64) -> (number: Real)
    ensures
        number == real_of(n as int),
        n <= EXACTLY ==> number.truncated() == n,
{
    Real { bits: serde_json::Number::from(n).as_f64().map(|number| number.to_bits()).unwrap_or(0) }
}

#[verifier::external_type_specification]
#[verifier::external_body]
pub struct ExValue(serde_json::Value);

/// A `serde_json::Value` as a value of this library, variant by variant, a number by the first of
/// `as_i64`, `as_u64` and the bits of `as_f64` that there is, the last with its `to_string`.
/// Nothing is stated of it, since the value that comes in is opaque.
#[verifier::external_body]
fn inside(value: serde_json::Value) -> (json: Json) {
    match value {
        Value::Null => Json::Null,
        Value::Bool(yes) => Json::Bool(yes),
        Value::Number(n) => n.as_i64().map(Json::Int)
            .or(n.as_u64().map(Json::Nat))
            .or(n.as_f64().map(|x| Json::Fraction(Real { bits: x.to_bits() }, n.to_string())))
            .unwrap_or(Json::Null),
        Value::String(text) => Json::Text(text),
        Value::Array(items) => Json::List(items.into_iter().map(inside).collect()),
        Value::Object(fields) => Json::Object(
            fields.into_iter().map(|(name, value)| (name, inside(value))).collect(),
        ),
    }
}

/// What a value or a message says.
pub open spec fn read_view(read: Result<Json, String>) -> Result<Tree, Seq<char>> {
    match read {
        Ok(json) => Ok(json.tree()),
        Err(why) => Err(why@),
    }
}

/// What `serde_json::from_str` reads in a text, or the message why it is not JSON.
pub uninterp spec fn parsed(text: Seq<char>) -> Result<Tree, Seq<char>>;

/// `serde_json::from_str` into a `serde_json::Value`: what a text says where it is JSON, and
/// otherwise the message of the error. Which texts are JSON, and what they say, is not stated.
#[verifier::external_body]
pub(crate) fn parse(text: &str) -> (json: Result<Json, String>)
    ensures
        read_view(json) == parsed(text@),
{
    serde_json::from_str(text).map(inside).map_err(|error| error.to_string())
}

/// What `serde_json::from_slice` reads in bytes, or the message why they are not JSON.
pub uninterp spec fn parsed_bytes(bytes: Seq<u8>) -> Result<Tree, Seq<char>>;

/// `serde_json::from_slice` into a `serde_json::Value`: what bytes say where they are JSON, and
/// otherwise the message of the error. Which bytes are JSON, and what they say, is not stated.
#[verifier::external_body]
pub(crate) fn parse_bytes(bytes: &[u8]) -> (json: Result<Json, String>)
    ensures
        read_view(json) == parsed_bytes(bytes@),
{
    serde_json::from_slice(bytes).map(inside).map_err(|error| error.to_string())
}

/// Whether a value has no number with a fraction in it, the fields of its objects are in the
/// order of their names, none twice, and it is no more than so many levels deep.
pub open spec fn plain(tree: Tree, levels: nat) -> bool
    decreases levels,
{
    match tree {
        Tree::Fraction(_, _) => false,
        Tree::Int(n) => i64::MIN <= n <= u64::MAX,
        Tree::List(items) => levels > 0 && forall|i: int|
            0 <= i < items.len() ==> plain(#[trigger] items[i], (levels - 1) as nat),
        Tree::Object(fields) => {
            &&& levels > 0
            &&& forall|i: int|
                0 <= i < fields.len() ==> plain((#[trigger] fields[i]).1, (levels - 1) as nat)
            &&& forall|i: int, j: int|
                0 <= i < j < fields.len() ==> precedes(
                    (#[trigger] fields[i]).0,
                    (#[trigger] fields[j]).0,
                )
        },
        _ => true,
    }
}

/// What `serde_json::Value::to_string` writes of a value.
pub uninterp spec fn json_text(tree: Tree) -> Seq<char>;

/// Whether a text is JSON and says this.
pub open spec fn reads_as(text: Seq<char>, tree: Tree) -> bool {
    match parsed(text) {
        Ok(said) => said == tree,
        Err(_) => false,
    }
}

/// A value of this library as a `serde_json::Value`, variant by variant; a number with a fraction
/// is the `serde_json::Number` of what `str::parse` reads in its text, which is exact. Nothing is
/// stated of it, since the value that comes out is opaque.
#[verifier::external_body]
fn outside(json: &Json) -> (value: serde_json::Value) {
    match json {
        Json::Null => Value::Null,
        Json::Bool(yes) => Value::Bool(*yes),
        Json::Int(n) => Value::from(*n),
        Json::Nat(n) => Value::from(*n),
        Json::Fraction(_, text) => text.parse().ok().and_then(serde_json::Number::from_f64)
            .map_or(Value::Null, Value::Number),
        Json::Text(text) => Value::from(text.as_str()),
        Json::List(items) => Value::Array(items.iter().map(outside).collect()),
        Json::Object(fields) => Value::Object(
            fields.iter().map(|(name, value)| (name.clone(), outside(value))).collect(),
        ),
    }
}

/// `serde_json::Value::to_string`: the text of a value. Where there is no number with a fraction
/// in it and it is not too deep, `serde_json::from_str` reads the same value in the text; it
/// reads no more than 127 levels. What the text looks like is not stated.
#[verifier::external_body]
pub(crate) fn text_of(json: &Json) -> (text: String)
    ensures
        text@ == json_text(json.tree()),
        plain(json.tree(), 100) ==> reads_as(text@, json.tree()),
{
    outside(json).to_string()
}

impl Json {
    /// The value as the text it is sent as.
    pub fn written(&self) -> (text: String)
        ensures
            text@ == json_text(self.tree()),
            plain(self.tree(), 100) ==> reads_as(text@, self.tree()),
    {
        text_of(self)
    }
}

// ---- Objects -----------------------------------------------------------------------------------

/// The fields of an object with one more, in the place of its name; one of that name gives way.
pub open spec fn with_field(fields: Seq<(Seq<char>, Tree)>, name: Seq<char>, value: Tree) -> Seq<
    (Seq<char>, Tree),
>
    decreases fields.len(),
{
    if fields.len() == 0 {
        seq![(name, value)]
    } else if fields.last().0 == name {
        fields.drop_last().push((name, value))
    } else if precedes(fields.last().0, name) {
        fields.push((name, value))
    } else {
        with_field(fields.drop_last(), name, value).push(fields.last())
    }
}

/// Whether the fields of an object are in the order of their names, none twice.
pub open spec fn fields_ordered(fields: Seq<(Seq<char>, Tree)>) -> bool {
    forall|i: int, j: int|
        0 <= i < j < fields.len() ==> precedes((#[trigger] fields[i]).0, (#[trigger] fields[j]).0)
}

/// One more field keeps the order.
pub proof fn fields_stay_ordered(fields: Seq<(Seq<char>, Tree)>, name: Seq<char>, value: Tree)
    requires
        fields_ordered(fields),
    ensures
        fields_ordered(with_field(fields, name, value)),
        forall|i: int|
            0 <= i < with_field(fields, name, value).len() ==> (#[trigger] with_field(
                fields,
                name,
                value,
            )[i]) == (name, value) || fields.contains(with_field(fields, name, value)[i]),
    decreases fields.len(),
{
    let after = with_field(fields, name, value);
    if fields.len() > 0 {
        let last = fields.last();
        let front = fields.drop_last();
        assert(fields_ordered(front)) by {
            assert forall|i: int, j: int| 0 <= i < j < front.len() implies precedes(
                (#[trigger] front[i]).0,
                (#[trigger] front[j]).0,
            ) by {
                assert(precedes(fields[i].0, fields[j].0));
            }
        }
        if last.0 == name {
            assert forall|i: int, j: int| 0 <= i < j < after.len() implies precedes(
                (#[trigger] after[i]).0,
                (#[trigger] after[j]).0,
            ) by {
                assert(precedes(fields[i].0, fields[j].0));
            }
            assert forall|i: int| 0 <= i < after.len() implies (#[trigger] after[i]) == (
                name,
                value,
            ) || fields.contains(after[i]) by {
                if i < front.len() {
                    assert(fields[i] == after[i]);
                }
            }
        } else if precedes(last.0, name) {
            assert forall|i: int, j: int| 0 <= i < j < after.len() implies precedes(
                (#[trigger] after[i]).0,
                (#[trigger] after[j]).0,
            ) by {
                if j == fields.len() && i < fields.len() - 1 {
                    assert(precedes(fields[i].0, fields[fields.len() - 1].0));
                    precedes_is_transitive(fields[i].0, last.0, name);
                }
            }
            assert forall|i: int| 0 <= i < after.len() implies (#[trigger] after[i]) == (
                name,
                value,
            ) || fields.contains(after[i]) by {
                if i < fields.len() {
                    assert(fields[i] == after[i]);
                }
            }
        } else {
            precedes_is_total(last.0, name);
            fields_stay_ordered(front, name, value);
            let start = with_field(front, name, value);
            assert forall|i: int, j: int| 0 <= i < j < after.len() implies precedes(
                (#[trigger] after[i]).0,
                (#[trigger] after[j]).0,
            ) by {
                if j == start.len() {
                    assert(after[i] == start[i]);
                    if start[i] != (name, value) {
                        assert(front.contains(start[i]));
                        let k = choose|k: int| 0 <= k < front.len() && front[k] == start[i];
                        assert(precedes(fields[k].0, fields[fields.len() - 1].0));
                    }
                }
            }
            assert forall|i: int| 0 <= i < after.len() implies (#[trigger] after[i]) == (
                name,
                value,
            ) || fields.contains(after[i]) by {
                if i < start.len() {
                    assert(after[i] == start[i]);
                    if start[i] != (name, value) {
                        let k = choose|k: int| 0 <= k < front.len() && front[k] == start[i];
                        assert(fields[k] == after[i]);
                    }
                } else {
                    assert(fields[fields.len() - 1] == after[i]);
                }
            }
        }
    }
}

/// Puts a field into the place of its name; one of that name gives way.
pub fn put(fields: &mut Vec<(String, Json)>, name: &str, value: Json)
    ensures
        field_trees(final(fields)@) == with_field(field_trees(old(fields)@), name@, value.tree()),
{
    let ghost before = fields@;
    let ghost trees = field_trees(before);
    let ghost goal = with_field(trees, name@, value.tree());
    proof {
        lemma_field_trees(before);
    }
    let mut at: usize = fields.len();
    assert(trees.take(at as int) =~= trees);
    assert(goal =~= with_field(trees.take(at as int), name@, value.tree()) + trees.skip(at as int));
    while at > 0 && !same(&fields[at - 1].0, name) && !comes_before(&fields[at - 1].0, name)
        invariant
            at <= fields@.len(),
            fields@ == before,
            trees == field_trees(before),
            trees.len() == before.len(),
            forall|i: int|
                0 <= i < before.len() ==> #[trigger] trees[i] == (
                    before[i].0@,
                    before[i].1.tree(),
                ),
            goal == with_field(trees.take(at as int), name@, value.tree()) + trees.skip(at as int),
        decreases at,
    {
        proof {
            let here = trees.take(at as int);
            assert(here.last() == trees[at - 1]);
            assert(here.drop_last() =~= trees.take(at - 1));
            assert(trees.skip(at - 1) =~= seq![trees[at - 1]] + trees.skip(at as int));
            assert(with_field(trees.take(at - 1), name@, value.tree()).push(trees[at - 1])
                + trees.skip(at as int) =~= with_field(trees.take(at - 1), name@, value.tree())
                + trees.skip(at - 1));
        }
        at -= 1;
    }
    proof {
        let here = trees.take(at as int);
        if at > 0 {
            assert(here.last() == trees[at - 1]);
            assert(here.drop_last() =~= trees.take(at - 1));
        }
    }
    let field = (copy(name), value);
    if at > 0 && same(&fields[at - 1].0, name) {
        fields.set(at - 1, field);
        proof {
            lemma_field_trees(fields@);
            assert(field_trees(fields@) =~= goal);
        }
    } else {
        fields.insert(at, field);
        proof {
            lemma_field_trees(fields@);
            assert(field_trees(fields@) =~= goal);
        }
    }
}

/// A field written into an object is read back, and every other field says what it said.
pub proof fn a_field_written_is_read_back(
    fields: Seq<(Seq<char>, Tree)>,
    name: Seq<char>,
    value: Tree,
    other: Seq<char>,
)
    requires
        fields_ordered(fields),
    ensures
        named(with_field(fields, name, value), name) == Some(value),
        other != name ==> named(with_field(fields, name, value), other)
            == named(fields, other),
{
    let after = with_field(fields, name, value);
    fields_stay_ordered(fields, name, value);
    lemma_field_written(fields, name, value);
    let k = choose|k: int| 0 <= k < after.len() && after[k] == (name, value);
    lemma_ordered_are_apart(after);
    lemma_ordered_are_apart(fields);
    a_field_is_found_by_its_name(after, k);
    if other != name {
        if exists|i: int| 0 <= i < fields.len() && (#[trigger] fields[i]).0 == other {
            let i = choose|i: int| 0 <= i < fields.len() && (#[trigger] fields[i]).0 == other;
            a_field_is_found_by_its_name(fields, i);
            assert(after.contains(fields[i]));
            let j = choose|j: int| 0 <= j < after.len() && after[j] == fields[i];
            a_field_is_found_by_its_name(after, j);
        } else {
            a_field_not_there_is_not_found(fields, other);
            assert forall|j: int| 0 <= j < after.len() implies (#[trigger] after[j]).0
                != other by {
                if after[j] != (name, value) {
                    let i = choose|i: int| 0 <= i < fields.len() && fields[i] == after[j];
                    assert(fields[i].0 == after[j].0);
                }
            }
            a_field_not_there_is_not_found(after, other);
        }
    }
}

proof fn lemma_field_written(fields: Seq<(Seq<char>, Tree)>, name: Seq<char>, value: Tree)
    ensures
        with_field(fields, name, value).contains((name, value)),
        forall|i: int|
            0 <= i < fields.len() && (#[trigger] fields[i]).0 != name ==> with_field(
                fields,
                name,
                value,
            ).contains(fields[i]),
    decreases fields.len(),
{
    let after = with_field(fields, name, value);
    if fields.len() == 0 {
        assert(after[0] == (name, value));
    } else {
        let front = fields.drop_last();
        let last = fields.last();
        lemma_field_written(front, name, value);
        if last.0 == name || precedes(last.0, name) {
            assert(after.last() == (name, value));
            assert forall|i: int| 0 <= i < fields.len() && (#[trigger] fields[i]).0
                != name implies after.contains(fields[i]) by {
                assert(after[i] == fields[i]);
            }
        } else {
            let before = with_field(front, name, value);
            let k = choose|k: int| 0 <= k < before.len() && before[k] == (name, value);
            assert(after[k] == (name, value));
            assert forall|i: int| 0 <= i < fields.len() && (#[trigger] fields[i]).0
                != name implies after.contains(fields[i]) by {
                if i < front.len() {
                    assert(front[i] == fields[i]);
                    let j = choose|j: int| 0 <= j < before.len() && before[j] == front[i];
                    assert(after[j] == fields[i]);
                } else {
                    assert(after.last() == last);
                }
            }
        }
    }
}

proof fn lemma_ordered_are_apart(fields: Seq<(Seq<char>, Tree)>)
    requires
        fields_ordered(fields),
    ensures
        forall|i: int, j: int|
            0 <= i < j < fields.len() ==> (#[trigger] fields[i]).0 != (#[trigger] fields[j]).0,
{
    assert forall|i: int, j: int| 0 <= i < j < fields.len() implies (#[trigger] fields[i]).0 != (
    #[trigger] fields[j]).0 by {
        assert(precedes(fields[i].0, fields[j].0));
        if fields[i].0 == fields[j].0 {
            precedes_is_irreflexive(fields[i].0);
        }
    }
}

} // verus!
