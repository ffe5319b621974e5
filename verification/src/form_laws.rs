//! The exact forms in which keys are written and taken apart.

use crate::create_laws::key_parts;
use crate::db::{IndexColumn, IndexScope, TableView};
use crate::delimited::{
    composite_key, joined, lemma_composite_key_terminated, lemma_pieces_nonempty, pieces,
    terminated,
};
use crate::keys::{local_columns, sort_columns, strings};
use crate::stmt::ValueView;
use vstd::prelude::*;

verus! {

/// Puts the delimiter behind a text.
pub open spec fn ended() -> spec_fn(Seq<char>) -> Seq<char> {
    |part: Seq<char>| part.push('#')
}

/// Puts a separator before a text.
pub open spec fn led_by(sep: Seq<char>) -> spec_fn(Seq<char>) -> Seq<char> {
    |part: Seq<char>| sep + part
}

/// Keeps the text of a string value.
pub open spec fn text_only() -> spec_fn(ValueView) -> Option<Seq<char>> {
    |v: ValueView|
        match v {
            ValueView::String(s) => Some(s),
            _ => None,
        }
}

proof fn lemma_ended(parts: Seq<Seq<char>>)
    ensures
        terminated(parts) == parts.map_values(ended()).flatten_alt(),
    decreases parts.len(),
{
    let all = parts.map_values(ended());
    if parts.len() > 0 {
        lemma_ended(parts.drop_last());
        assert(all.drop_last() =~= parts.drop_last().map_values(ended()));
        assert(all.last() == parts.last().push('#'));
    }
    assert(terminated(parts) =~= all.flatten_alt());
}

/// Searched beginnings of the joined local key are the components, each with `#` behind
/// it, and nothing else. So are stored joined keys, if there is a component; if there is
/// none, the `#` stands alone.
pub proof fn law_each_component_is_ended(parts: Seq<Seq<char>>)
    ensures
        terminated(parts) == parts.map_values(ended()).flatten(),
        parts.len() > 0 ==> composite_key(parts) == parts.map_values(ended()).flatten(),
        parts.len() == 0 ==> composite_key(parts) == seq!['#'],
{
    lemma_ended(parts);
    parts.map_values(ended()).lemma_flatten_and_flatten_alt_are_equivalent();
    if parts.len() > 0 {
        lemma_composite_key_terminated(parts);
    } else {
        assert(composite_key(parts) =~= seq!['#']);
    }
}

proof fn lemma_led(parts: Seq<Seq<char>>, sep: Seq<char>)
    requires
        parts.len() > 0,
    ensures
        joined(parts, sep) == parts[0] + parts.skip(1).map_values(led_by(sep)).flatten_alt(),
    decreases parts.len(),
{
    let tail = parts.skip(1).map_values(led_by(sep));
    if parts.len() == 1 {
        assert(tail =~= Seq::empty());
        assert(tail.flatten_alt() =~= Seq::<char>::empty());
        assert(joined(parts, sep) =~= parts[0] + tail.flatten_alt());
    } else {
        let rest = parts.drop_last();
        lemma_led(rest, sep);
        let before = rest.skip(1).map_values(led_by(sep));
        assert(tail.drop_last() =~= before);
        assert(tail.last() == sep + parts.last());
        assert(rest[0] == parts[0]);
        assert(joined(parts, sep) =~= parts[0] + tail.flatten_alt());
    }
}

/// Joining writes the first part, and then each other one with the separator before it.
pub proof fn law_separator_stands_between(parts: Seq<Seq<char>>, sep: Seq<char>)
    ensures
        parts.len() == 0 ==> joined(parts, sep).len() == 0,
        parts.len() > 0 ==> joined(parts, sep) == parts[0] + parts.skip(1).map_values(
            led_by(sep),
        ).flatten(),
{
    if parts.len() > 0 {
        lemma_led(parts, sep);
        parts.skip(1).map_values(led_by(sep)).lemma_flatten_and_flatten_alt_are_equivalent();
    }
}

/// Taking a text apart at each `#` loses nothing and leaves no `#` in a piece: the pieces
/// with `#` between them are the text again.
pub proof fn law_pieces_make_up_text(s: Seq<char>)
    ensures
        pieces(s).len() > 0,
        joined(pieces(s), seq!['#']) == s,
        forall|i: int| 0 <= i < pieces(s).len() ==> !(#[trigger] pieces(s)[i]).contains('#'),
    decreases s.len(),
{
    lemma_pieces_nonempty(s);
    if s.len() == 0 {
        assert(joined(pieces(s), seq!['#']) =~= s);
    } else {
        let before = pieces(s.drop_last());
        law_pieces_make_up_text(s.drop_last());
        let after = pieces(s);
        if s.last() == '#' {
            assert(after.drop_last() =~= before);
            assert(joined(after, seq!['#']) =~= s);
            assert forall|i: int| 0 <= i < after.len() implies !(#[trigger] after[i]).contains(
                '#',
            ) by {
                if i < before.len() {
                    assert(after[i] == before[i]);
                }
            }
        } else {
            let last = before.last().push(s.last());
            assert(after.drop_last() =~= before.drop_last());
            assert(after.last() == last);
            if before.len() == 1 {
                assert(joined(after, seq!['#']) =~= s);
            } else {
                assert(joined(before, seq!['#']) == joined(before.drop_last(), seq!['#'])
                    + seq!['#'] + before.last());
                assert(joined(after, seq!['#']) =~= joined(before, seq!['#']).push(s.last()));
                assert(joined(after, seq!['#']) =~= s);
            }
            assert forall|i: int| 0 <= i < after.len() implies !(#[trigger] after[i]).contains(
                '#',
            ) by {
                if i < before.len() - 1 {
                    assert(after[i] == before[i]);
                } else {
                    assert(!before[before.len() - 1].contains('#'));
                    if last.contains('#') {
                        let k = choose|k: int| 0 <= k < last.len() && last[k] == '#';
                        assert(before.last()[k] == '#');
                    }
                }
            }
        }
    }
}

/// What is joined is the text of every string value, in their order, and of no other.
pub proof fn law_only_text_is_joined(values: Seq<ValueView>)
    ensures
        strings(values) == values.filter_map(text_only()),
    decreases values.len(),
{
    if values.len() > 0 {
        law_only_text_is_joined(values.drop_last());
    }
    assert(strings(values) =~= values.filter_map(text_only()));
}

proof fn lemma_local_columns(table: TableView, columns: Seq<IndexColumn>)
    ensures
        ({
            let kept = columns.filter_map(crate::create_laws::of_scope(IndexScope::Local));
            let found = local_columns(table, columns);
            &&& found.len() == kept.len()
            &&& forall|k: int|
                0 <= k < kept.len() ==> (#[trigger] found[k])
                    == table.columns[kept[k].index as int].id
        }),
    decreases columns.len(),
{
    if columns.len() > 0 {
        let rest = columns.drop_last();
        lemma_local_columns(table, rest);
        let kept = columns.filter_map(crate::create_laws::of_scope(IndexScope::Local));
        let found = local_columns(table, columns);
        let before = local_columns(table, rest);
        assert forall|k: int| 0 <= k < kept.len() implies (#[trigger] found[k])
            == table.columns[kept[k].index as int].id by {
            if k < before.len() {
                assert(found[k] == before[k]);
            }
        }
    }
}

/// The columns of the local key are those that the key's index gives that scope, all of
/// them, in its order.
pub proof fn law_sort_columns_follow_index(table: TableView)
    ensures
        sort_columns(table).len() == key_parts(table, IndexScope::Local).len(),
        forall|k: int|
            0 <= k < sort_columns(table).len() ==> (#[trigger] sort_columns(table)[k])
                == table.columns[key_parts(table, IndexScope::Local)[k].index as int].id,
{
    lemma_local_columns(table, table.indices[table.key_index.index as int].columns);
}

} // verus!
