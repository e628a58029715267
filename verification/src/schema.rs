//! Reading typed records out of parsed Lua tables.
//!
//! The collector's schema makes every field optional: an absent key means
//! "not captured", never zero or false. A key that is present must hold a
//! value of its field's kind, and a key the reader does not know is ignored,
//! so a newer addon's extra fields do not stop an older reader.
//!
//! A record is a table of named entries. A list is a table of positional
//! entries; `{}` is both the empty list and the empty record, and nothing in
//! the text says which, so an empty table is accepted as either. A map from
//! names to records is a table of named entries.

use vstd::prelude::*;

use crate::literal::integer_i64;
use crate::lua::{lemma_table_model, list_model, map_model, model_of, LuaModel, LuaTable, LuaValue};
use crate::text::{has_key, key_lt, lemma_unique_key, sorted_by_key, value_of, StrMap};

verus! {

/// The entry under `key`, if there is one.
pub open spec fn field(m: Map<Seq<char>, LuaModel>, key: Seq<char>) -> Option<LuaModel> {
    if m.dom().contains(key) {
        Some(m[key])
    } else {
        None
    }
}

/// An optional integer field: absent, or a number naming an integer in
/// `lo..=hi`.
pub open spec fn int_fits(x: Option<LuaModel>, lo: int, hi: int) -> bool {
    match x {
        None => true,
        Some(LuaModel::Num(text)) => match integer_i64(text) {
            Some(v) => lo <= v <= hi,
            None => false,
        },
        _ => false,
    }
}

/// The integer an integer field holds.
pub open spec fn int_val(x: Option<LuaModel>) -> Option<int> {
    match x {
        Some(LuaModel::Num(text)) => match integer_i64(text) {
            Some(v) => Some(v as int),
            None => None,
        },
        _ => None,
    }
}

pub open spec fn text_fits(x: Option<LuaModel>) -> bool {
    x is None || x matches Some(LuaModel::Str(_))
}

pub open spec fn text_val(x: Option<LuaModel>) -> Option<Seq<char>> {
    match x {
        Some(LuaModel::Str(text)) => Some(text),
        _ => None,
    }
}

pub open spec fn flag_fits(x: Option<LuaModel>) -> bool {
    x is None || x matches Some(LuaModel::Flag(_))
}

pub open spec fn flag_val(x: Option<LuaModel>) -> Option<bool> {
    match x {
        Some(LuaModel::Flag(b)) => Some(b),
        _ => None,
    }
}

pub open spec fn o8(x: Option<u8>) -> Option<int> {
    match x {
        Some(v) => Some(v as int),
        None => None,
    }
}

pub open spec fn o16(x: Option<u16>) -> Option<int> {
    match x {
        Some(v) => Some(v as int),
        None => None,
    }
}

pub open spec fn o32(x: Option<u32>) -> Option<int> {
    match x {
        Some(v) => Some(v as int),
        None => None,
    }
}

pub open spec fn o64(x: Option<u64>) -> Option<int> {
    match x {
        Some(v) => Some(v as int),
        None => None,
    }
}

pub open spec fn oi64(x: Option<i64>) -> Option<int> {
    match x {
        Some(v) => Some(v as int),
        None => None,
    }
}

pub open spec fn otext(x: Option<String>) -> Option<Seq<char>> {
    match x {
        Some(s) => Some(s@),
        None => None,
    }
}

/// A record of the schema, read from a table's named entries.
pub trait Schema: Sized {
    /// Whether the entries can be read as this record.
    spec fn fits(m: Map<Seq<char>, LuaModel>) -> bool;

    /// Whether `value` is what the entries read as.
    spec fn read_as(m: Map<Seq<char>, LuaModel>, value: Self) -> bool;

    /// Read a record from a table's named entries.
    fn read(t: &LuaTable) -> (r: Option<Self>)
        ensures
            r is Some <==> Self::fits(map_model(t.map)),
            r matches Some(v) ==> Self::read_as(map_model(t.map), v),
    ;
}

/// A value that is a record: a table with no positional entries.
pub open spec fn item_fits<R: Schema>(x: LuaModel) -> bool {
    x matches LuaModel::Table(m, l) && l.len() == 0 && R::fits(m)
}

pub open spec fn item_is<R: Schema>(x: LuaModel, value: R) -> bool {
    x matches LuaModel::Table(m, l) && R::read_as(m, value)
}

/// An optional record field.
pub open spec fn record_fits<R: Schema>(x: Option<LuaModel>) -> bool {
    match x {
        None => true,
        Some(v) => item_fits::<R>(v),
    }
}

pub open spec fn record_is<R: Schema>(x: Option<LuaModel>, value: Option<R>) -> bool {
    match x {
        None => value is None,
        Some(v) => value matches Some(r) && item_is::<R>(v, r),
    }
}

/// Every value of a list is a record.
pub open spec fn items_fit<R: Schema>(l: Seq<LuaModel>) -> bool {
    forall|i: int| 0 <= i < l.len() ==> item_fits::<R>(#[trigger] l[i])
}

/// Every value of a map is a record.
pub open spec fn entries_fit<R: Schema>(m: Map<Seq<char>, LuaModel>) -> bool {
    forall|k: Seq<char>| #[trigger] m.dom().contains(k) ==> item_fits::<R>(m[k])
}

/// An optional list field: a table with no named entries whose positional
/// entries are all records.
pub open spec fn list_fits<R: Schema>(x: Option<LuaModel>) -> bool {
    match x {
        None => true,
        Some(LuaModel::Table(m, l)) => m.dom() == Set::<Seq<char>>::empty() && items_fit::<R>(l),
        _ => false,
    }
}

pub open spec fn list_is<R: Schema>(x: Option<LuaModel>, value: Option<Vec<R>>) -> bool {
    match x {
        None => value is None,
        Some(LuaModel::Table(m, l)) => value matches Some(items) && items@.len() == l.len()
            && forall|i: int| 0 <= i < l.len() ==> item_is::<R>(#[trigger] l[i], items@[i]),
        _ => false,
    }
}

/// A map field: a table with no positional entries whose named entries are
/// all records.
pub open spec fn map_fits<R: Schema>(x: Option<LuaModel>) -> bool {
    match x {
        None => true,
        Some(LuaModel::Table(m, l)) => l.len() == 0 && entries_fit::<R>(m),
        _ => false,
    }
}

/// `value` holds a record under exactly the names the field does, each read
/// from the entry under its name. An absent field is an empty map.
pub open spec fn map_is<R: Schema>(x: Option<LuaModel>, value: StrMap<R>) -> bool {
    match x {
        None => value@.len() == 0,
        Some(LuaModel::Table(m, l)) => (forall|k: Seq<char>|
            #[trigger] has_key(value@, k) <==> m.dom().contains(k)) && (forall|k: Seq<char>|
            #[trigger] m.dom().contains(k) ==> item_is::<R>(m[k], value_of(value@, k)->0)),
        _ => false,
    }
}

/// The value under `key` in a table.
pub fn lookup<'a>(t: &'a LuaTable, key: &str) -> (r: Option<&'a LuaValue>)
    ensures
        match r {
            Some(v) => field(map_model(t.map), key@) == Some(model_of(*v)),
            None => field(map_model(t.map), key@) is None,
        },
{
    t.get(key)
}

/// An optional integer field in `lo..=hi`; `None` when it does not fit.
pub fn int_field(t: &LuaTable, key: &str, lo: i64, hi: i64) -> (r: Option<Option<i64>>)
    ensures
        r is Some <==> int_fits(field(map_model(t.map), key@), lo as int, hi as int),
        r matches Some(v) ==> oi64(v) == int_val(field(map_model(t.map), key@)),
        r matches Some(Some(v)) ==> lo <= v <= hi,
{
    match lookup(t, key) {
        None => Some(None),
        Some(value) => match value {
            LuaValue::Number(_) => match value.as_i64() {
                Some(v) => if lo <= v && v <= hi {
                    Some(Some(v))
                } else {
                    None
                },
                None => None,
            },
            _ => None,
        },
    }
}

pub fn u8_field(t: &LuaTable, key: &str) -> (r: Option<Option<u8>>)
    ensures
        r is Some <==> int_fits(field(map_model(t.map), key@), 0, u8::MAX as int),
        r matches Some(v) ==> o8(v) == int_val(field(map_model(t.map), key@)),
{
    match int_field(t, key, 0, u8::MAX as i64)? {
        Some(v) => Some(Some(v as u8)),
        None => Some(None),
    }
}

pub fn u16_field(t: &LuaTable, key: &str) -> (r: Option<Option<u16>>)
    ensures
        r is Some <==> int_fits(field(map_model(t.map), key@), 0, u16::MAX as int),
        r matches Some(v) ==> o16(v) == int_val(field(map_model(t.map), key@)),
{
    match int_field(t, key, 0, u16::MAX as i64)? {
        Some(v) => Some(Some(v as u16)),
        None => Some(None),
    }
}

pub fn u32_field(t: &LuaTable, key: &str) -> (r: Option<Option<u32>>)
    ensures
        r is Some <==> int_fits(field(map_model(t.map), key@), 0, u32::MAX as int),
        r matches Some(v) ==> o32(v) == int_val(field(map_model(t.map), key@)),
{
    match int_field(t, key, 0, u32::MAX as i64)? {
        Some(v) => Some(Some(v as u32)),
        None => Some(None),
    }
}

/// A `u64` field. Numbers arrive through an `i64`, so the largest a field
/// can hold is `i64::MAX`.
pub fn u64_field(t: &LuaTable, key: &str) -> (r: Option<Option<u64>>)
    ensures
        r is Some <==> int_fits(field(map_model(t.map), key@), 0, i64::MAX as int),
        r matches Some(v) ==> o64(v) == int_val(field(map_model(t.map), key@)),
{
    match int_field(t, key, 0, i64::MAX)? {
        Some(v) => Some(Some(v as u64)),
        None => Some(None),
    }
}

pub fn i64_field(t: &LuaTable, key: &str) -> (r: Option<Option<i64>>)
    ensures
        r is Some <==> int_fits(field(map_model(t.map), key@), i64::MIN as int, i64::MAX as int),
        r matches Some(v) ==> oi64(v) == int_val(field(map_model(t.map), key@)),
{
    int_field(t, key, i64::MIN, i64::MAX)
}

/// An optional string field.
pub fn text_field(t: &LuaTable, key: &str) -> (r: Option<Option<String>>)
    ensures
        r is Some <==> text_fits(field(map_model(t.map), key@)),
        r matches Some(v) ==> otext(v) == text_val(field(map_model(t.map), key@)),
{
    match lookup(t, key) {
        None => Some(None),
        Some(LuaValue::String(text)) => Some(Some(text.clone())),
        Some(_) => None,
    }
}

/// An optional flag field.
pub fn flag_field(t: &LuaTable, key: &str) -> (r: Option<Option<bool>>)
    ensures
        r is Some <==> flag_fits(field(map_model(t.map), key@)),
        r matches Some(v) ==> v == flag_val(field(map_model(t.map), key@)),
{
    match lookup(t, key) {
        None => Some(None),
        Some(LuaValue::Bool(flag)) => Some(Some(*flag)),
        Some(_) => None,
    }
}

/// A value read as a record.
pub fn read_item<R: Schema>(value: &LuaValue) -> (r: Option<R>)
    ensures
        r is Some <==> item_fits::<R>(model_of(*value)),
        r matches Some(v) ==> item_is::<R>(model_of(*value), v),
{
    match value {
        LuaValue::Table(table) => {
            proof {
                lemma_table_model(*table);
            }
            if table.array.len() == 0 {
                R::read(table)
            } else {
                None
            }
        },
        _ => None,
    }
}

/// An optional record field.
pub fn record_field<R: Schema>(t: &LuaTable, key: &str) -> (r: Option<Option<R>>)
    ensures
        r is Some <==> record_fits::<R>(field(map_model(t.map), key@)),
        r matches Some(v) ==> record_is::<R>(field(map_model(t.map), key@), v),
{
    match lookup(t, key) {
        None => Some(None),
        Some(value) => match read_item::<R>(value) {
            Some(record) => Some(Some(record)),
            None => None,
        },
    }
}

/// The named entries of a table are none exactly when its map is empty.
proof fn lemma_no_names(m: StrMap<LuaValue>)
    ensures
        (m@.len() == 0) == (map_model(m).dom() == Set::<Seq<char>>::empty()),
{
    if m@.len() == 0 {
        assert(map_model(m).dom() =~= Set::<Seq<char>>::empty());
    } else {
        assert(map_model(m).dom().contains(m@[0].0));
    }
}

/// An optional list field.
pub fn list_field<R: Schema>(t: &LuaTable, key: &str) -> (r: Option<Option<Vec<R>>>)
    ensures
        r is Some <==> list_fits::<R>(field(map_model(t.map), key@)),
        r matches Some(v) ==> list_is::<R>(field(map_model(t.map), key@), v),
{
    let value = match lookup(t, key) {
        None => return Some(None),
        Some(value) => value,
    };
    let table = match value {
        LuaValue::Table(table) => table,
        _ => return None,
    };
    proof {
        lemma_table_model(*table);
        lemma_no_names(table.map);
    }
    if !table.map.is_empty() {
        return None;
    }
    let ghost l = list_model(table.array@);
    let mut items: Vec<R> = Vec::new();
    let mut i: usize = 0;
    while i < table.array.len()
        invariant
            i <= table.array@.len(),
            l == list_model(table.array@),
            field(map_model(t.map), key@) == Some(LuaModel::Table(map_model(table.map), l)),
            map_model(table.map).dom() == Set::<Seq<char>>::empty(),
            items@.len() == i,
            forall|j: int| 0 <= j < i ==> item_fits::<R>(#[trigger] l[j]),
            forall|j: int| 0 <= j < i ==> item_is::<R>(#[trigger] l[j], items@[j]),
        decreases table.array@.len() - i,
    {
        match read_item::<R>(&table.array[i]) {
            Some(item) => items.push(item),
            None => {
                assert(l[i as int] == model_of(table.array@[i as int]));
                assert(!item_fits::<R>(l[i as int]));
                assert(!items_fit::<R>(l));
                assert(!list_fits::<R>(Some(LuaModel::Table(map_model(table.map), l))));
                return None;
            },
        }
        i = i + 1;
    }
    Some(Some(items))
}

/// A map field; absent, it is an empty map.
pub fn map_field<R: Schema>(t: &LuaTable, key: &str) -> (r: Option<StrMap<R>>)
    ensures
        r is Some <==> map_fits::<R>(field(map_model(t.map), key@)),
        r matches Some(v) ==> map_is::<R>(field(map_model(t.map), key@), v),
{
    let value = match lookup(t, key) {
        None => return Some(StrMap::new()),
        Some(value) => value,
    };
    let table = match value {
        LuaValue::Table(table) => table,
        _ => return None,
    };
    proof {
        lemma_table_model(*table);
    }
    if table.array.len() != 0 {
        return None;
    }
    let ghost m = map_model(table.map);
    table.map.lemma_sorted();
    let mut out: StrMap<R> = StrMap::new();
    let mut i: usize = 0;
    while i < table.map.len()
        invariant
            i <= table.map@.len(),
            m == map_model(table.map),
            table.array@.len() == 0,
            field(map_model(t.map), key@) == Some(
                LuaModel::Table(m, list_model(table.array@)),
            ),
            sorted_by_key(table.map@),
            out@.len() == i,
            forall|j: int| 0 <= j < i ==> (#[trigger] out@[j]).0 == table.map@[j].0,
            forall|j: int| 0 <= j < i ==> item_fits::<R>(model_of(#[trigger] table.map@[j].1)),
            forall|j: int|
                0 <= j < i ==> item_is::<R>(model_of(table.map@[j].1), (#[trigger] out@[j]).1),
        decreases table.map@.len() - i,
    {
        let (name, value) = table.map.entry(i);
        match read_item::<R>(value) {
            Some(item) => {
                let ghost before = out@;
                proof {
                    if i > 0 {
                        assert(before.last().0 == table.map@[i - 1].0);
                    }
                }
                out.push_greatest(name.clone(), item);
                assert(out@[i as int] == (name@, item));
            },
            None => {
                proof {
                    lemma_unique_key(table.map@, i as int, name@);
                    assert(m.dom().contains(name@));
                    assert(m[name@] == model_of(table.map@[i as int].1));
                    assert(!item_fits::<R>(m[name@]));
                    assert(!entries_fit::<R>(m));
                    assert(!map_fits::<R>(Some(LuaModel::Table(m, list_model(table.array@)))));
                }
                return None;
            },
        }
        i = i + 1;
    }
    out.lemma_sorted();
    proof {
        assert forall|k: Seq<char>| #[trigger] has_key(out@, k) <==> m.dom().contains(k) by {
            if has_key(out@, k) {
                let j = choose|j: int| 0 <= j < out@.len() && #[trigger] out@[j].0 == k;
                assert(table.map@[j].0 == k);
            }
            if m.dom().contains(k) {
                let j = choose|j: int| 0 <= j < table.map@.len() && #[trigger] table.map@[j].0 == k;
                assert(out@[j].0 == k);
            }
        }
        assert forall|k: Seq<char>| #[trigger] m.dom().contains(k) implies item_fits::<R>(m[k])
            && item_is::<R>(m[k], value_of(out@, k)->0) by {
            let j = choose|j: int| 0 <= j < table.map@.len() && #[trigger] table.map@[j].0 == k;
            lemma_unique_key(table.map@, j, k);
            assert(out@[j].0 == k);
            lemma_unique_key(out@, j, k);
        }
    }
    Some(out)
}

pub open spec fn opt_map_is<R: Schema>(x: Option<LuaModel>, value: Option<StrMap<R>>) -> bool {
    match x {
        None => value is None,
        Some(_) => value matches Some(v) && map_is::<R>(x, v),
    }
}

/// An optional map field; absent, it is `None`.
pub fn opt_map_field<R: Schema>(t: &LuaTable, key: &str) -> (r: Option<Option<StrMap<R>>>)
    ensures
        r is Some <==> map_fits::<R>(field(map_model(t.map), key@)),
        r matches Some(v) ==> opt_map_is::<R>(field(map_model(t.map), key@), v),
{
    match lookup(t, key) {
        None => Some(None),
        Some(_) => match map_field::<R>(t, key) {
            Some(map) => Some(Some(map)),
            None => None,
        },
    }
}

} // verus!
