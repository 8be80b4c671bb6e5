//! Dotted-path lookup into a context value.
use crate::operand::{Operand, OperandModel, Scalar, ScalarModel};
use crate::text::{chars_of, piece, split_on, split_ranges};
use crate::value::{JsonModel, JsonValue};
use vstd::prelude::*;

verus! {

/// The value under the first entry named `key`.
pub open spec fn entry_of(es: Seq<(Seq<char>, JsonModel)>, key: Seq<char>) -> Option<JsonModel>
    decreases es.len(),
{
    if es.len() == 0 {
        None
    } else if es[0].0 == key {
        Some(es[0].1)
    } else {
        entry_of(es.drop_first(), key)
    }
}

/// The member `key` of an object; nothing for any other kind of value.
pub open spec fn member(m: JsonModel, key: Seq<char>) -> Option<JsonModel> {
    match m {
        JsonModel::Object(es) => entry_of(es, key),
        _ => None,
    }
}

/// Follows `keys` from `m`; null as soon as a key is missing or leads to null.
pub open spec fn resolve(m: JsonModel, keys: Seq<Seq<char>>) -> JsonModel
    decreases keys.len(),
{
    if keys.len() == 0 {
        m
    } else {
        match member(m, keys[0]) {
            Some(v) => if v is Null {
                JsonModel::Null
            } else {
                resolve(v, keys.drop_first())
            },
            None => JsonModel::Null,
        }
    }
}

/// The value that a dotted path such as `preferences.type` names.
pub open spec fn lookup(path: Seq<char>, context: JsonModel) -> JsonModel {
    resolve(context, split_on(path, '.'))
}

/// How a context value enters a formula: strings and numbers as they are,
/// everything else as null.
pub open spec fn operand_of(m: JsonModel) -> OperandModel {
    match m {
        JsonModel::Str(s) => OperandModel::Primitive(ScalarModel::Str(s)),
        JsonModel::Number(n) => OperandModel::Primitive(ScalarModel::Number(n)),
        _ => OperandModel::Primitive(ScalarModel::Null),
    }
}

fn member_ref<'a>(v: &'a JsonValue, key: &String) -> (r: Option<&'a JsonValue>)
    ensures
        match member(v.model(), key@) {
            Some(m) => r is Some && r->0.model() == m,
            None => r is None,
        },
{
    match v {
        JsonValue::Object(es) => {
            let ghost ms = v.model()->Object_0;
            let mut j: usize = 0;
            assert(ms.subrange(0, ms.len() as int) =~= ms);
            while j < es.len()
                invariant
                    *v == JsonValue::Object(*es),
                    ms == v.model()->Object_0,
                    j <= es@.len(),
                    entry_of(ms, key@) == entry_of(ms.subrange(j as int, ms.len() as int), key@),
                decreases es@.len() - j,
            {
                let ghost rest = ms.subrange(j as int, ms.len() as int);
                assert(rest[0] == (es@[j as int].0@, es@[j as int].1.model()));
                if es[j].0 == *key {
                    return Some(&es[j].1);
                }
                assert(rest.drop_first() =~= ms.subrange(j + 1, ms.len() as int));
                j = j + 1;
            }
            None
        },
        _ => None,
    }
}

/// The value at `name`, or `None` where `lookup` gives null.
fn lookup_ref<'a>(name: &String, context: &'a JsonValue) -> (r: Option<&'a JsonValue>)
    ensures
        match r {
            Some(v) => v.model() == lookup(name@, context.model()) && !(v.model() is Null),
            None => lookup(name@, context.model()) is Null,
        },
{
    let text = name.as_str();
    let cs = chars_of(text);
    let parts = split_ranges(&cs, 0, cs.len(), '.');
    let ghost keys = split_on(name@, '.');
    assert(cs@.subrange(0, cs@.len() as int) =~= name@);
    let mut cur: &JsonValue = context;
    let mut k: usize = 0;
    assert(keys.subrange(0, keys.len() as int) =~= keys);
    while k < parts.len()
        invariant
            cs@ == name@,
            text@ == name@,
            keys == split_on(name@, '.'),
            parts@.len() == keys.len(),
            forall|x: int|
                0 <= x < parts@.len() ==> #[trigger] parts@[x].0 <= parts@[x].1 <= cs@.len()
                    && cs@.subrange(parts@[x].0 as int, parts@[x].1 as int) == keys[x],
            k <= parts@.len(),
            resolve(context.model(), keys) == resolve(cur.model(), keys.subrange(k as int, keys.len() as int)),
        decreases parts@.len() - k,
    {
        let ghost rest = keys.subrange(k as int, keys.len() as int);
        let (a, b) = parts[k];
        let key = piece(text, a, b);
        assert(key@ == rest[0]);
        assert(rest.drop_first() =~= keys.subrange(k + 1, keys.len() as int));
        match member_ref(cur, &key) {
            Some(v) => {
                if let JsonValue::Null = v {
                    return None;
                }
                cur = v;
            },
            None => {
                return None;
            },
        }
        k = k + 1;
    }
    assert(keys.subrange(k as int, keys.len() as int) =~= Seq::<Seq<char>>::empty());
    match cur {
        JsonValue::Null => None,
        _ => Some(cur),
    }
}

/// The value that the dotted path `name` names in `context`, as a copy;
/// null when a key on the way is missing.
pub fn get_context_var(name: &String, context: &JsonValue) -> (r: JsonValue)
    ensures
        r.model() == lookup(name@, context.model()),
{
    match lookup_ref(name, context) {
        Some(v) => v.deep_copy(),
        None => JsonValue::Null,
    }
}

/// The context value at `name` as a formula operand.
pub fn var_to_operand(name: &String, context: &JsonValue) -> (r: Operand)
    ensures
        r@ == operand_of(lookup(name@, context.model())),
{
    match lookup_ref(name, context) {
        Some(JsonValue::String(s)) => Operand::Primitive(Scalar::String(s.clone())),
        Some(JsonValue::Number(n)) => Operand::Primitive(Scalar::Number(*n)),
        _ => Operand::Primitive(Scalar::Null),
    }
}

} // verus!
