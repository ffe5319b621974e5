//! Reads records from stored items.

use crate::attribute::{
    AttributeValue, AttributeView, attribute_of, ddb_to_val, has_type, is_readable, is_storable,
    is_written, value_of,
};
use crate::db::{Column, ColumnId, ColumnView};
use crate::delimited::{self, delimiter_free, pieces, texts};
use crate::keys::{attribute_views, sort_key_text, strings};
use crate::stmt::{Value, ValueView, value_views};
use crate::string_map::StringMap;
use vstd::prelude::*;

verus! {

/// What each column of a list says.
pub open spec fn column_views(columns: Seq<&Column>) -> Seq<ColumnView> {
    columns.map_values(|c: &Column| c@)
}

/// The components of the joined local key of an item, if it has one.
///
/// Behind the last delimiter there is no component: it is written so that a
/// search for a prefix works with full and with partial keys.
pub open spec fn sort_parts(item: Map<Seq<char>, AttributeView>) -> Seq<Seq<char>> {
    if item.contains_key("__sk"@) {
        pieces(item["__sk"@]->S_0).drop_last()
    } else {
        Seq::empty()
    }
}

/// The first `n` components by the column that each is for.
pub open spec fn parts_by_column(
    parts: Seq<Seq<char>>,
    sk_cols: Seq<ColumnId>,
    n: nat,
) -> Map<ColumnId, Seq<char>>
    decreases n,
{
    if n == 0 {
        Map::empty()
    } else {
        parts_by_column(parts, sk_cols, (n - 1) as nat).insert(sk_cols[n - 1], parts[n - 1])
    }
}

/// The value of one column: an attribute of that name, or else a component of the
/// joined local key, or else null.
pub open spec fn column_value(
    item: Map<Seq<char>, AttributeView>,
    parts: Map<ColumnId, Seq<char>>,
    column: ColumnView,
) -> ValueView {
    if item.contains_key(column.name) {
        value_of(column.ty, item[column.name])->0
    } else if parts.contains_key(column.id) {
        ValueView::String(parts[column.id])
    } else {
        ValueView::Null
    }
}

/// The values of several columns of an item.
pub open spec fn record_of(
    item: Map<Seq<char>, AttributeView>,
    columns: Seq<ColumnView>,
    sk_cols: Seq<ColumnId>,
) -> Seq<ValueView> {
    let parts = sort_parts(item);
    let by_column = parts_by_column(parts, sk_cols, parts.len());
    columns.map_values(|c: ColumnView| column_value(item, by_column, c))
}

/// Whether the joined local key of an item, if it has one, is text with no more
/// components than there are columns.
pub open spec fn sort_key_fits(
    item: Map<Seq<char>, AttributeView>,
    sk_cols: Seq<ColumnId>,
) -> bool {
    item.contains_key("__sk"@) ==> item["__sk"@] is S && sort_parts(item).len() <= sk_cols.len()
}

/// Whether the column is not an attribute of the item, or one of the column's type.
pub open spec fn column_fits(item: Map<Seq<char>, AttributeView>, column: ColumnView) -> bool {
    item.contains_key(column.name) ==> value_of(column.ty, item[column.name]) is Some
}

/// Whether a record of the given columns can be read from an item.
pub open spec fn item_fits(
    item: Map<Seq<char>, AttributeView>,
    columns: Seq<ColumnView>,
    sk_cols: Seq<ColumnId>,
) -> bool {
    &&& sort_key_fits(item, sk_cols)
    &&& forall|i: int| 0 <= i < columns.len() ==> column_fits(item, #[trigger] columns[i])
}

/// Whether the column is not an attribute of the item, or one from which a value of
/// the column's type is read or in which one was stored.
pub open spec fn column_readable(item: Map<Seq<char>, AttributeView>, column: ColumnView) -> bool {
    column_fits(item, column) || is_written(column.ty, item[column.name])
}

/// Whether an item holds a value for each of the given columns that it has an
/// attribute for.
pub open spec fn item_readable(
    item: Map<Seq<char>, AttributeView>,
    columns: Seq<ColumnView>,
    sk_cols: Seq<ColumnId>,
) -> bool {
    &&& sort_key_fits(item, sk_cols)
    &&& forall|i: int| 0 <= i < columns.len() ==> column_readable(item, #[trigger] columns[i])
}

/// The component for a column is the last one that is meant for it.
pub proof fn lemma_parts_by_column(
    parts: Seq<Seq<char>>,
    sk_cols: Seq<ColumnId>,
    n: nat,
    k: int,
    id: ColumnId,
)
    requires
        0 <= k <= n,
        forall|j: int| k <= j < n ==> #[trigger] sk_cols[j] != id,
        k > 0 ==> sk_cols[k - 1] == id,
    ensures
        k > 0 ==> parts_by_column(parts, sk_cols, n).contains_key(id) && parts_by_column(
            parts,
            sk_cols,
            n,
        )[id] == parts[k - 1],
        k == 0 ==> !parts_by_column(parts, sk_cols, n).contains_key(id),
    decreases n,
{
    if n > k {
        assert(sk_cols[n - 1] != id);
        lemma_parts_by_column(parts, sk_cols, (n - 1) as nat, k, id);
    }
}

/// The components of the joined local key of an item, if it has one.
fn read_sort_key(item: &StringMap<AttributeValue>) -> (r: Vec<String>)
    requires
        attribute_views(item@).contains_key("__sk"@) ==> attribute_views(item@)["__sk"@] is S,
    ensures
        texts(r@) == sort_parts(attribute_views(item@)),
{
    match item.get("__sk") {
        Some(AttributeValue::S(sk_val)) => {
            let mut parts = delimited::split(sk_val.as_str());
            let ghost all = parts@;
            // we write a trailing delimeter so that begins with will work with both full and
            // partial values
            proof {
                delimited::lemma_pieces_nonempty(sk_val@);
            }
            parts.pop();
            assert(texts(parts@) =~= texts(all).drop_last());
            parts
        },
        _ => {
            let parts: Vec<String> = Vec::new();
            assert(texts(parts@) =~= sort_parts(attribute_views(item@)));
            parts
        },
    }
}

/// The component that is meant for a column, if there is one.
fn find_part(parts: &Vec<String>, sk_cols: &Vec<ColumnId>, id: ColumnId) -> (r: Option<String>)
    requires
        parts@.len() <= sk_cols@.len(),
    ensures
        ({
            let by_column = parts_by_column(texts(parts@), sk_cols@, parts@.len());
            match r {
                Some(s) => by_column.contains_key(id) && by_column[id] == s@,
                None => !by_column.contains_key(id),
            }
        }),
{
    let n: usize = parts.len();
    let mut i: usize = n;
    while i > 0
        invariant
            i <= n,
            n == parts@.len(),
            n <= sk_cols@.len(),
            forall|j: int| i <= j < n ==> #[trigger] sk_cols@[j] != id,
        decreases i,
    {
        if sk_cols[i - 1] == id {
            proof {
                lemma_parts_by_column(texts(parts@), sk_cols@, n as nat, i as int, id);
            }
            return Some(parts[i - 1].clone());
        }
        i = i - 1;
    }
    proof {
        lemma_parts_by_column(texts(parts@), sk_cols@, n as nat, 0, id);
    }
    None
}

/// Whether every value that was stored in an item as an attribute of its column is
/// read back.
pub open spec fn reads_back(
    item: Map<Seq<char>, AttributeView>,
    columns: Seq<ColumnView>,
    record: Seq<ValueView>,
) -> bool {
    forall|i: int, v: ValueView|
        0 <= i < columns.len() && is_stored(item, #[trigger] columns[i], v) && item[columns[i].name]
            == #[trigger] attribute_of(v) ==> record[i] == v
}

/// Whether the item has an attribute for the column, and the value is one that
/// the column can hold.
pub open spec fn is_stored(
    item: Map<Seq<char>, AttributeView>,
    column: ColumnView,
    v: ValueView,
) -> bool {
    item.contains_key(column.name) && has_type(column.ty, v) && is_storable(v)
}

/// The values of several columns of an item.
///
/// What `ddb_val` has stored is read back.
pub fn item_to_record(
    item: &StringMap<AttributeValue>,
    columns: &Vec<&Column>,
    sk_cols: &Vec<ColumnId>,
) -> (r: Vec<Value>)
    requires
        item_readable(attribute_views(item@), column_views(columns@), sk_cols@),
    ensures
        item_fits(attribute_views(item@), column_views(columns@), sk_cols@),
        value_views(r@) == record_of(attribute_views(item@), column_views(columns@), sk_cols@),
        reads_back(attribute_views(item@), column_views(columns@), value_views(r@)),
{
    let ghost view = attribute_views(item@);
    let ghost all = column_views(columns@);
    let parts = read_sort_key(item);
    let ghost by_column = parts_by_column(texts(parts@), sk_cols@, parts@.len());
    let ghost record = record_of(view, all, sk_cols@);
    let mut r: Vec<Value> = Vec::new();
    let mut i: usize = 0;
    assert(value_views(r@) =~= record.take(0));
    while i < columns.len()
        invariant
            i <= columns@.len(),
            view == attribute_views(item@),
            all == column_views(columns@),
            item_readable(view, all, sk_cols@),
            forall|k: int| 0 <= k < i ==> column_fits(view, #[trigger] all[k]),
            texts(parts@) == sort_parts(view),
            parts@.len() <= sk_cols@.len(),
            by_column == parts_by_column(texts(parts@), sk_cols@, parts@.len()),
            record == record_of(view, all, sk_cols@),
            value_views(r@) == record.take(i as int),
            reads_back(view, all.take(i as int), value_views(r@)),
        decreases columns@.len() - i,
    {
        let column = columns[i];
        assert(all[i as int] == column@);
        assert(column_readable(view, all[i as int]));
        let value = match item.get(column.name.as_str()) {
            Some(value) => ddb_to_val(&column.ty, value),
            None => match find_part(&parts, sk_cols, column.id) {
                Some(part) => Value::String(part),
                None => Value::Null,
            },
        };
        let ghost before = r@;
        let ghost added = value@;
        r.push(value);
        proof {
            assert(added == record[i as int]);
            assert(value_views(r@) =~= value_views(before).push(added));
            assert(record.take(i + 1) =~= record.take(i as int).push(record[i as int]));
            let done = all.take(i as int);
            let more = all.take(i + 1);
            assert forall|k: int, v: ValueView|
                0 <= k < more.len() && is_stored(view, #[trigger] more[k], v)
                    && view[more[k].name] == #[trigger] attribute_of(v) implies value_views(r@)[k]
                == v by {
                if k < done.len() {
                    assert(done[k] == more[k]);
                    assert(value_views(before)[k] == v);
                }
            }
        }
        i = i + 1;
    }
    assert(record.take(i as int) =~= record);
    assert(all.take(i as int) =~= all);
    r
}

/// The values of several columns of an item, if the item holds them as such.
///
/// What `ddb_val` has stored is read back.
pub fn try_item_to_record(
    item: &StringMap<AttributeValue>,
    columns: &Vec<&Column>,
    sk_cols: &Vec<ColumnId>,
) -> (r: Option<Vec<Value>>)
    ensures
        ({
            let view = attribute_views(item@);
            let all = column_views(columns@);
            match r {
                Some(record) => {
                    &&& item_fits(view, all, sk_cols@)
                    &&& value_views(record@) == record_of(view, all, sk_cols@)
                    &&& reads_back(view, all, value_views(record@))
                },
                None => !item_fits(view, all, sk_cols@) && !item_readable(view, all, sk_cols@),
            }
        }),
{
    let ghost view = attribute_views(item@);
    let ghost all = column_views(columns@);
    match item.get("__sk") {
        Some(AttributeValue::S(_)) => {
            let parts = read_sort_key(item);
            assert(texts(parts@).len() == parts@.len());
            if parts.len() > sk_cols.len() {
                return None;
            }
        },
        Some(_) => {
            return None;
        },
        None => {},
    }
    let mut i: usize = 0;
    while i < columns.len()
        invariant
            i <= columns@.len(),
            view == attribute_views(item@),
            all == column_views(columns@),
            sort_key_fits(view, sk_cols@),
            forall|k: int| 0 <= k < i ==> column_fits(view, #[trigger] all[k]),
        decreases columns@.len() - i,
    {
        let column = columns[i];
        assert(all[i as int] == column@);
        match item.get(column.name.as_str()) {
            Some(value) => {
                if !is_readable(&column.ty, value) {
                    assert(!column_readable(view, all[i as int]));
                    return None;
                }
            },
            None => {},
        }
        i = i + 1;
    }
    Some(item_to_record(item, columns, sk_cols))
}

/// Whether the values are text up to place `n`, which can be told apart in a
/// joined key, and no text from there on.
pub open spec fn text_up_to(values: Seq<ValueView>, n: int) -> bool {
    &&& 0 <= n <= values.len()
    &&& forall|i: int|
        0 <= i < n ==> (#[trigger] values[i]) is String && delimiter_free(values[i]->String_0)
    &&& forall|i: int| n <= i < values.len() ==> !((#[trigger] values[i]) is String)
}

proof fn lemma_strings(values: Seq<ValueView>, n: int)
    requires
        text_up_to(values, n),
    ensures
        strings(values).len() == n,
        forall|i: int| 0 <= i < n ==> #[trigger] strings(values)[i] == values[i]->String_0,
    decreases values.len(),
{
    if values.len() > 0 {
        let rest = values.drop_last();
        if n == values.len() {
            assert(text_up_to(rest, n - 1));
            lemma_strings(rest, n - 1);
            assert(values[n - 1] is String);
            assert forall|i: int| 0 <= i < n implies #[trigger] strings(values)[i]
                == values[i]->String_0 by {
                if i < n - 1 {
                    assert(strings(rest)[i] == rest[i]->String_0);
                }
            }
        } else {
            assert(text_up_to(rest, n));
            lemma_strings(rest, n);
            assert(!(values[values.len() - 1] is String));
            assert forall|i: int| 0 <= i < n implies #[trigger] strings(values)[i]
                == values[i]->String_0 by {
                assert(strings(rest)[i] == rest[i]->String_0);
            }
        }
    }
}

/// The components of a joined local key are the texts that it was written from.
pub proof fn lemma_written_parts(item: Map<Seq<char>, AttributeView>, values: Seq<ValueView>, n: int)
    requires
        text_up_to(values, n),
        n > 0,
        item.contains_key("__sk"@),
        item["__sk"@] == AttributeView::S(sort_key_text(values)),
    ensures
        sort_parts(item) == strings(values),
        sort_parts(item).len() == n,
{
    let parts = strings(values);
    lemma_strings(values, n);
    assert forall|i: int| 0 <= i < parts.len() implies delimiter_free(#[trigger] parts[i]) by {
        assert(delimiter_free(values[i]->String_0));
    }
    delimited::law_composite_key_round_trip(parts);
}

/// The values of a joined local key are read back from the item that they are
/// stored in: those that are text as such, and those behind them as null.
///
/// This needs a first value, text without the delimiter, and no value that is
/// not text before one that is: such a gap closes when the key is joined.
pub proof fn law_sort_key_read_back(
    item: Map<Seq<char>, AttributeView>,
    values: Seq<ValueView>,
    sk_cols: Seq<ColumnId>,
    n: int,
    column: ColumnView,
    k: int,
)
    requires
        text_up_to(values, n),
        n > 0,
        values.len() == sk_cols.len(),
        sk_cols.no_duplicates(),
        item.contains_key("__sk"@),
        item["__sk"@] == AttributeView::S(sort_key_text(values)),
        0 <= k < sk_cols.len(),
        column.id == sk_cols[k],
        !item.contains_key(column.name),
    ensures
        sort_key_fits(item, sk_cols),
        record_of(item, seq![column], sk_cols)[0] == (if k < n {
            values[k]
        } else {
            ValueView::Null
        }),
{
    let parts = strings(values);
    lemma_strings(values, n);
    lemma_written_parts(item, values, n);
    if k < n {
        assert forall|j: int| k + 1 <= j < parts.len() implies #[trigger] sk_cols[j] != column.id by {}
        lemma_parts_by_column(parts, sk_cols, parts.len(), k + 1, column.id);
        assert(values[k] is String);
    } else {
        lemma_parts_by_column(parts, sk_cols, parts.len(), 0, column.id);
    }
}

} // verus!
