//! What an `auto_json_db` invocation asks for: the shape of storage, the key
//! and unique fields, and the names and format strings the generated code uses.

use vstd::prelude::*;
use vstd::string::*;
use crate::attrs::{attributes_of, parse_string_to_hashmap, AttrMap};
use crate::fields::{
    answers, lemma_positions_complete, lemma_field_list_pieces, lemma_format_slots_shape, lemma_split_rejoins, lists_pieces, segments,
    field_list, field_positions, format_slots, key_format_str, positions_of, split_field_list,
};

verus! {

/// The storage shape that the attributes choose.
#[derive(Clone, Copy, Debug, PartialEq, Eq, Structural)]
pub enum StructKind {
    /// `singleton`: one value kept in one file.
    Singleton,
    /// `bigsize`: one file per record, with an index of stand-ins.
    BigSize,
    /// `custom_save`: records kept per owner id.
    CustomSave,
    /// All records kept in one file.
    Plain,
}

/// The struct the attribute is placed on: its name and, when it is a struct
/// with named fields, the names of those fields in order.
pub struct ItemDecl {
    pub name: String,
    pub named_fields: Option<Vec<String>>,
}

/// The shape chosen by the attributes `a`: `singleton` first, then
/// `bigsize`, then `custom_save`.
pub open spec fn kind_of(a: Map<Seq<char>, Seq<char>>) -> StructKind {
    if a.contains_key("singleton"@) {
        StructKind::Singleton
    } else if a.contains_key("bigsize"@) {
        StructKind::BigSize
    } else if a.contains_key("custom_save"@) {
        StructKind::CustomSave
    } else {
        StructKind::Plain
    }
}

/// The field list given under `key`, or none.
pub open spec fn list_attr(a: Map<Seq<char>, Seq<char>>, key: Seq<char>) -> Seq<Option<Seq<char>>> {
    if a.contains_key(key) {
        field_list(a[key])
    } else {
        Seq::empty()
    }
}

/// The environment variable named under `encript`, or the empty name.
pub open spec fn encrypt_var_of(a: Map<Seq<char>, Seq<char>>) -> Seq<char> {
    if a.contains_key("encript"@) {
        a["encript"@]
    } else {
        Seq::empty()
    }
}

/// The decisions of an invocation, as mathematical values.
pub struct PlanModel {
    pub kind: StructKind,
    pub name: Seq<char>,
    pub behalf_name: Seq<char>,
    pub encrypt_var: Seq<char>,
    pub key_fields: Seq<Option<Seq<char>>>,
    pub key_positions: Seq<int>,
    pub key_format: Seq<char>,
    pub has_hash_fn: bool,
    pub unique_fields: Seq<Option<Seq<char>>>,
    pub unique_positions: Seq<int>,
}

/// The plan for attribute text `attr` on the struct `name` with fields `fields`.
pub open spec fn plan_for(attr: Seq<char>, name: Seq<char>, fields: Seq<Seq<char>>) -> PlanModel {
    let a = attributes_of(attr);
    let keys = list_attr(a, "key"@);
    let uniques = list_attr(a, "unique"@);
    PlanModel {
        kind: kind_of(a),
        name: name,
        behalf_name: name + "_behalf"@,
        encrypt_var: encrypt_var_of(a),
        key_fields: keys,
        key_positions: positions_of(keys, fields),
        key_format: format_slots(keys.len()),
        has_hash_fn: keys.len() > 0,
        unique_fields: uniques,
        unique_positions: positions_of(uniques, fields),
    }
}

/// What a plan `p` for the struct `name` owes to the attributes `a`:
/// - `singleton` chooses the singleton layout; failing that `bigsize` the
///   one-file-per-record layout; failing that `custom_save` the per-owner
///   layout; with none of them, the plain layout;
/// - the encryption variable is the `encript` value whenever one is given,
///   whatever the layout, and empty otherwise;
/// - a `key` attribute yields at least one key entry and so a hash function,
///   and without it there are no key fields, no positions and no hash function;
///   in any case there is a hash function exactly when there are key entries;
/// - without a `unique` attribute there are no unique fields and no positions;
///   with one, at least one entry;
/// - the key and unique entries list what the `|`-separated pieces of those
///   attributes name, characters unchanged;
/// - the key and unique positions answer, in order, exactly those entries
///   whose name one of `fields` has, each with the first field of that name;
/// - the key format has `3n - 1` characters for `n` key entries, none for none;
/// - the stand-in struct is named `name` followed by `_behalf`.
pub open spec fn plan_obeys(
    a: Map<Seq<char>, Seq<char>>,
    name: Seq<char>,
    fields: Seq<Seq<char>>,
    p: PlanModel,
) -> bool {
    let s = "singleton"@;
    let b = "bigsize"@;
    let c = "custom_save"@;
    &&& a.contains_key(s) ==> p.kind == StructKind::Singleton
    &&& !a.contains_key(s) && a.contains_key(b) ==> p.kind == StructKind::BigSize
    &&& !a.contains_key(s) && !a.contains_key(b) && a.contains_key(c) ==> p.kind
        == StructKind::CustomSave
    &&& !a.contains_key(s) && !a.contains_key(b) && !a.contains_key(c) ==> p.kind
        == StructKind::Plain
    &&& a.contains_key("encript"@) ==> p.encrypt_var == a["encript"@]
    &&& !a.contains_key("encript"@) ==> p.encrypt_var.len() == 0
    &&& p.has_hash_fn == (p.key_fields.len() > 0)
    &&& a.contains_key("key"@) ==> p.key_fields.len() >= 1 && p.has_hash_fn && lists_pieces(
        a["key"@],
        p.key_fields,
    )
    &&& !a.contains_key("key"@) ==> p.key_fields.len() == 0 && p.key_positions.len() == 0
        && !p.has_hash_fn
    &&& a.contains_key("unique"@) ==> p.unique_fields.len() >= 1 && lists_pieces(
        a["unique"@],
        p.unique_fields,
    )
    &&& !a.contains_key("unique"@) ==> p.unique_fields.len() == 0 && p.unique_positions.len()
        == 0
    &&& p.key_fields.len() > 0 ==> p.key_format.len() == 3 * p.key_fields.len() - 1
    &&& p.key_fields.len() == 0 ==> p.key_format.len() == 0
    &&& exists|js: Seq<int>| #[trigger] answers(p.key_fields, fields, p.key_positions, js)
    &&& exists|js: Seq<int>| #[trigger] answers(p.unique_fields, fields, p.unique_positions, js)
    &&& p.name == name
    &&& p.behalf_name == name + "_behalf"@
}

/// Every plan follows its attributes as `plan_obeys` says.
pub proof fn lemma_plan_obeys_attributes(attr: Seq<char>, name: Seq<char>, fields: Seq<Seq<char>>)
    ensures
        plan_obeys(attributes_of(attr), name, fields, plan_for(attr, name, fields)),
{
    let a = attributes_of(attr);
    let p = plan_for(attr, name, fields);
    if a.contains_key("key"@) {
        lemma_split_rejoins(a["key"@]);
        lemma_field_list_pieces(a["key"@]);
        assert(field_list(a["key"@]).len() == segments(a["key"@]).len());
    }
    if a.contains_key("unique"@) {
        lemma_split_rejoins(a["unique"@]);
        lemma_field_list_pieces(a["unique"@]);
        assert(field_list(a["unique"@]).len() == segments(a["unique"@]).len());
    }
    if p.key_fields.len() > 0 {
        lemma_format_slots_shape(p.key_fields.len());
    }
    lemma_positions_complete(p.key_fields, fields);
    lemma_positions_complete(p.unique_fields, fields);
    let kj = choose|js: Seq<int>| answers(p.key_fields, fields, positions_of(p.key_fields, fields), js);
    assert(answers(p.key_fields, fields, p.key_positions, kj));
    let uj = choose|js: Seq<int>|
        answers(p.unique_fields, fields, positions_of(p.unique_fields, fields), js);
    assert(answers(p.unique_fields, fields, p.unique_positions, uj));
}

/// The decisions of an invocation, from which the code is generated.
pub struct MacroPlan {
    pub kind: StructKind,
    pub name: String,
    pub behalf_name: String,
    pub encrypt_var: String,
    pub key_fields: Vec<Option<String>>,
    pub key_positions: Vec<usize>,
    pub key_format: String,
    pub has_hash_fn: bool,
    pub unique_fields: Vec<Option<String>>,
    pub unique_positions: Vec<usize>,
}

impl View for MacroPlan {
    type V = PlanModel;

    open spec fn view(&self) -> PlanModel {
        PlanModel {
            kind: self.kind,
            name: self.name@,
            behalf_name: self.behalf_name@,
            encrypt_var: self.encrypt_var@,
            key_fields: self.key_fields.deep_view(),
            key_positions: self.key_positions@.map_values(|p: usize| p as int),
            key_format: self.key_format@,
            has_hash_fn: self.has_hash_fn,
            unique_fields: self.unique_fields.deep_view(),
            unique_positions: self.unique_positions@.map_values(|p: usize| p as int),
        }
    }
}

/// The field list given under `key`, or an empty list.
fn list_of(a: &AttrMap, key: &str) -> (r: Vec<Option<String>>)
    ensures
        r.deep_view() == list_attr(a@, key@),
{
    match a.get(key) {
        Some(v) => split_field_list(v.as_str()),
        None => {
            let r: Vec<Option<String>> = Vec::new();
            assert(r.deep_view() =~= Seq::<Option<Seq<char>>>::empty());
            r
        },
    }
}

/// Positions found for a list, as a vector of indices.
fn positions(wanted: &Vec<Option<String>>, fields: &Vec<String>) -> (r: Vec<usize>)
    ensures
        r@.map_values(|p: usize| p as int) == positions_of(wanted.deep_view(), fields.deep_view()),
        forall|i: int| 0 <= i < r@.len() ==> #[trigger] r@[i] < fields@.len(),
{
    let r = field_positions(wanted, fields);
    assert(r@.map_values(|p: usize| p as int) =~= positions_of(
        wanted.deep_view(),
        fields.deep_view(),
    ));
    r
}

/// Plans the expansion of `#[auto_json_db(attr)]` on `item`: the storage
/// shape, the encryption variable, the key and unique fields with their
/// positions among the struct's fields, the key format string, and the name
/// of the stand-in struct. Only a struct with named fields can be planned; the
/// expansion refuses any other item before it asks for a plan.
pub fn auto_json_db(attr: &str, item: &ItemDecl) -> (r: MacroPlan)
    requires
        item.named_fields is Some,
    ensures
        r@ == plan_for(attr@, item.name@, item.named_fields->0.deep_view()),
        plan_obeys(attributes_of(attr@), item.name@, item.named_fields->0.deep_view(), r@),
        forall|i: int|
            0 <= i < r.key_positions@.len() ==> #[trigger] r.key_positions@[i]
                < item.named_fields->0@.len(),
        forall|i: int|
            0 <= i < r.unique_positions@.len() ==> #[trigger] r.unique_positions@[i]
                < item.named_fields->0@.len(),
{
    let fields = item.named_fields.as_ref().unwrap();
    proof {
        lemma_plan_obeys_attributes(attr@, item.name@, fields.deep_view());
    }
    let a = parse_string_to_hashmap(attr);
    let kind = if a.contains_key("singleton") {
        StructKind::Singleton
    } else if a.contains_key("bigsize") {
        StructKind::BigSize
    } else if a.contains_key("custom_save") {
        StructKind::CustomSave
    } else {
        StructKind::Plain
    };
    let encrypt_var = match a.get("encript") {
        Some(v) => v.clone(),
        None => String::new(),
    };
    let key_fields = list_of(&a, "key");
    let unique_fields = list_of(&a, "unique");
    let key_positions = positions(&key_fields, fields);
    let unique_positions = positions(&unique_fields, fields);
    let key_format = key_format_str(key_fields.len());
    let has_hash_fn = key_fields.len() > 0;
    let mut behalf_name = item.name.clone();
    behalf_name.append("_behalf");
    let plan = MacroPlan {
        kind,
        name: item.name.clone(),
        behalf_name,
        encrypt_var,
        key_fields,
        key_positions,
        key_format,
        has_hash_fn,
        unique_fields,
        unique_positions,
    };
    assert(plan@.key_fields.len() == plan.key_fields@.len());
    plan
}

} // verus!
