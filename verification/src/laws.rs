//! Properties that relate the operations of a front matter to one another,
//! stated over the model of `crate::model` and proved.
use vstd::prelude::*;
use crate::model::{
    Field, distinct_keys, has_key, key_index, lemma_key_index, lemma_key_index_at,
    lookup, merge_missing, remove_field, set_field, value_map, value_of,
};

verus! {

/// The keys of the fields, in order.
pub open spec fn keys(fields: Seq<Field>) -> Seq<Seq<char>> {
    fields.map_values(|f: Field| f.0)
}

/// After setting a key to a value, looking the key up gives that value.
pub proof fn law_get_after_set(fields: Seq<Field>, key: Seq<char>, value: Seq<char>)
    ensures
        lookup(set_field(fields, key, value), key) == Some(value),
{
    lemma_key_index(fields, key);
    let after = set_field(fields, key, value);
    match key_index(fields, key) {
        Some(i) => {
            lemma_key_index_at(after, key, i);
        },
        None => {
            lemma_key_index_at(after, key, fields.len() as int);
        },
    }
}

/// Setting a key leaves what every other key looks up unchanged.
pub proof fn law_set_keeps_other_keys(
    fields: Seq<Field>,
    key: Seq<char>,
    value: Seq<char>,
    other: Seq<char>,
)
    requires
        other != key,
    ensures
        lookup(set_field(fields, key, value), other) == lookup(fields, other),
{
    lemma_key_index(fields, key);
    lemma_key_index(fields, other);
    let after = set_field(fields, key, value);
    match key_index(fields, other) {
        Some(j) => {
            lemma_key_index_at(after, other, j);
        },
        None => {
            lemma_key_index_at(after, other, after.len() as int);
        },
    }
}

/// Setting a key never reorders the fields: the keys stay as they were, with
/// the key appended at the end when it was not present.
pub proof fn law_set_keeps_order(fields: Seq<Field>, key: Seq<char>, value: Seq<char>)
    ensures
        keys(set_field(fields, key, value)) == if has_key(fields, key) {
            keys(fields)
        } else {
            keys(fields).push(key)
        },
{
    lemma_key_index(fields, key);
    assert(keys(set_field(fields, key, value)) =~= if has_key(fields, key) {
        keys(fields)
    } else {
        keys(fields).push(key)
    });
}

/// Removing a key that was just added restores the fields as they were.
pub proof fn law_remove_undoes_set(fields: Seq<Field>, key: Seq<char>, value: Seq<char>)
    requires
        !has_key(fields, key),
    ensures
        remove_field(set_field(fields, key, value), key) == fields,
{
    lemma_key_index(fields, key);
    let after = set_field(fields, key, value);
    lemma_key_index_at(after, key, fields.len() as int);
    assert(after.remove(fields.len() as int) =~= fields);
}

/// Where no two fields share a key, a removed key is no longer found.
pub proof fn law_remove_clears_key(fields: Seq<Field>, key: Seq<char>)
    requires
        distinct_keys(fields),
    ensures
        lookup(remove_field(fields, key), key) is None,
{
    lemma_key_index(fields, key);
    let after = remove_field(fields, key);
    match key_index(fields, key) {
        Some(i) => {
            assert forall|k: int| 0 <= k < after.len() implies after[k].0 != key by {
                if k < i {
                    assert(after[k] == fields[k]);
                } else {
                    assert(after[k] == fields[k + 1]);
                }
            }
            lemma_key_index_at(after, key, after.len() as int);
        },
        None => {},
    }
}

/// Removing a key leaves what every other key looks up unchanged.
pub proof fn law_remove_keeps_other_keys(fields: Seq<Field>, key: Seq<char>, other: Seq<char>)
    requires
        other != key,
    ensures
        lookup(remove_field(fields, key), other) == lookup(fields, other),
{
    lemma_key_index(fields, key);
    lemma_key_index(fields, other);
    let after = remove_field(fields, key);
    match key_index(fields, key) {
        Some(i) => {
            match key_index(fields, other) {
                Some(j) => {
                    if j < i {
                        lemma_key_index_at(after, other, j);
                    } else {
                        assert forall|k: int| 0 <= k < j - 1 implies after[k].0 != other by {
                            if k < i {
                                assert(after[k] == fields[k]);
                            } else {
                                assert(after[k] == fields[k + 1]);
                            }
                        }
                        assert(after[j - 1] == fields[j]);
                        lemma_key_index_at(after, other, j - 1);
                    }
                },
                None => {
                    assert forall|k: int| 0 <= k < after.len() implies after[k].0 != other by {
                        if k < i {
                            assert(after[k] == fields[k]);
                        } else {
                            assert(after[k] == fields[k + 1]);
                        }
                    }
                    lemma_key_index_at(after, other, after.len() as int);
                },
            }
        },
        None => {},
    }
}

proof fn lemma_merge_prefix(fields: Seq<Field>, other: Seq<Field>)
    ensures
        merge_missing(fields, other).len() >= fields.len(),
        merge_missing(fields, other).take(fields.len() as int) == fields,
    decreases other.len(),
{
    if other.len() > 0 {
        lemma_merge_prefix(fields, other.drop_last());
        let acc = merge_missing(fields, other.drop_last());
        assert(acc.push(other.last()).take(fields.len() as int) =~= acc.take(fields.len() as int));
    }
}

/// Looking up a key in `fields ++ extra` finds it in `fields` first.
proof fn lemma_lookup_prefix(fields: Seq<Field>, longer: Seq<Field>, key: Seq<char>)
    requires
        longer.len() >= fields.len(),
        longer.take(fields.len() as int) == fields,
        has_key(fields, key),
    ensures
        lookup(longer, key) == lookup(fields, key),
{
    lemma_key_index(fields, key);
    let i = key_index(fields, key).unwrap();
    assert forall|k: int| 0 <= k < i implies longer[k].0 != key by {
        assert(longer[k] == longer.take(fields.len() as int)[k]);
    }
    assert(longer[i] == longer.take(fields.len() as int)[i]);
    lemma_key_index_at(longer, key, i);
}

/// Merging never changes what a key already present looks up, and keeps the
/// fields already present, in their order, at the front.
pub proof fn law_merge_keeps_own(fields: Seq<Field>, other: Seq<Field>, key: Seq<char>)
    ensures
        merge_missing(fields, other).take(fields.len() as int) == fields,
        has_key(fields, key) ==> lookup(merge_missing(fields, other), key) == lookup(fields, key),
{
    lemma_merge_prefix(fields, other);
    if has_key(fields, key) {
        lemma_lookup_prefix(fields, merge_missing(fields, other), key);
    }
}

proof fn lemma_has_key_push(fields: Seq<Field>, f: Field, key: Seq<char>)
    ensures
        has_key(fields.push(f), key) == (has_key(fields, key) || f.0 == key),
{
    lemma_key_index(fields, key);
    lemma_key_index(fields.push(f), key);
    if has_key(fields, key) {
        let i = key_index(fields, key).unwrap();
        lemma_key_index_at(fields.push(f), key, i);
    } else if f.0 == key {
        lemma_key_index_at(fields.push(f), key, fields.len() as int);
    } else {
        lemma_key_index_at(fields.push(f), key, fields.len() + 1int);
    }
}

proof fn lemma_merge_has_key(fields: Seq<Field>, other: Seq<Field>, key: Seq<char>)
    ensures
        has_key(merge_missing(fields, other), key) == (has_key(fields, key) || has_key(
            other,
            key,
        )),
    decreases other.len(),
{
    if other.len() > 0 {
        lemma_merge_has_key(fields, other.drop_last(), key);
        let acc = merge_missing(fields, other.drop_last());
        lemma_has_key_push(acc, other.last(), key);
        assert(other.drop_last().push(other.last()) =~= other);
        lemma_has_key_push(other.drop_last(), other.last(), key);
    }
}

/// After merging, the result holds every key of either front matter.
pub proof fn law_merge_has_all_keys(fields: Seq<Field>, other: Seq<Field>, key: Seq<char>)
    ensures
        has_key(merge_missing(fields, other), key) == (has_key(fields, key) || has_key(
            other,
            key,
        )),
{
    lemma_merge_has_key(fields, other, key);
}

proof fn lemma_merge_again(acc: Seq<Field>, other: Seq<Field>)
    requires
        forall|key: Seq<char>| has_key(other, key) ==> has_key(acc, key),
    ensures
        merge_missing(acc, other) == acc,
    decreases other.len(),
{
    if other.len() > 0 {
        assert forall|key: Seq<char>| has_key(other.drop_last(), key) implies has_key(acc, key) by {
            lemma_has_key_push(other.drop_last(), other.last(), key);
            assert(other.drop_last().push(other.last()) =~= other);
        }
        lemma_merge_again(acc, other.drop_last());
        lemma_has_key_push(other.drop_last(), other.last(), other.last().0);
        assert(other.drop_last().push(other.last()) =~= other);
    }
}

/// Merging the same front matter a second time changes nothing.
pub proof fn law_merge_idempotent(fields: Seq<Field>, other: Seq<Field>)
    ensures
        merge_missing(merge_missing(fields, other), other) == merge_missing(fields, other),
{
    let once = merge_missing(fields, other);
    assert forall|key: Seq<char>| has_key(other, key) implies has_key(once, key) by {
        lemma_merge_has_key(fields, other, key);
    }
    lemma_merge_again(once, other);
}

/// The map of typed values holds exactly the keys of the fields; where no two
/// fields share a key, each key maps to the typed reading of its value.
pub proof fn law_value_map_matches_lookup(fields: Seq<Field>, key: Seq<char>)
    ensures
        value_map(fields).contains_key(key) == has_key(fields, key),
        distinct_keys(fields) && has_key(fields, key) ==> value_map(fields)[key] == value_of(
            lookup(fields, key).unwrap(),
        ),
    decreases fields.len(),
{
    if fields.len() > 0 {
        let init = fields.drop_last();
        law_value_map_matches_lookup(init, key);
        assert(init.push(fields.last()) =~= fields);
        lemma_has_key_push(init, fields.last(), key);
        if distinct_keys(fields) && has_key(fields, key) {
            lemma_key_index(fields, key);
            lemma_key_index(init, key);
            if fields.last().0 == key {
                let i = key_index(fields, key).unwrap();
                assert(i == fields.len() - 1);
                if has_key(init, key) {
                    let j = key_index(init, key).unwrap();
                    assert(fields[j] == init[j]);
                    assert(false);
                }
            } else {
                assert(distinct_keys(init)) by {
                    assert forall|a: int, b: int| 0 <= a < b < init.len() implies init[a].0
                        != init[b].0 by {
                        assert(init[a] == fields[a]);
                        assert(init[b] == fields[b]);
                    }
                }
                let j = key_index(init, key).unwrap();
                assert forall|k: int| 0 <= k < j implies fields[k].0 != key by {
                    assert(fields[k] == init[k]);
                }
                assert(fields[j] == init[j]);
                lemma_key_index_at(fields, key, j);
            }
        }
    }
}

} // verus!
