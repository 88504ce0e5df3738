//! Dictionaries: entries in the order in which their keys first came, each
//! key once.

use crate::value::{entry_models, DValue, Datum};
use vstd::prelude::*;

verus! {

/// The first place at which `key` stands in `entries`.
pub open spec fn key_position(entries: Seq<(Seq<char>, Datum)>, key: Seq<char>) -> Option<int>
    decreases entries.len(),
{
    if entries.len() == 0 {
        None
    } else {
        match key_position(entries.drop_last(), key) {
            Some(i) => Some(i),
            None => if entries.last().0 == key {
                Some(entries.len() - 1)
            } else {
                None
            },
        }
    }
}

/// `entries` with `v` under `key`: in the place of the value that stood
/// under `key`, or at the end where `key` is new.
pub open spec fn with_entry(entries: Seq<(Seq<char>, Datum)>, key: Seq<char>, v: Datum) -> Seq<
    (Seq<char>, Datum),
> {
    match key_position(entries, key) {
        Some(i) => entries.update(i, (key, v)),
        None => entries.push((key, v)),
    }
}

/// True where no key stands twice in `entries`.
pub open spec fn distinct_keys(entries: Seq<(Seq<char>, Datum)>) -> bool {
    forall|i: int, j: int| 0 <= i < j < entries.len() ==> entries[i].0 != entries[j].0
}

/// True of the values in which no dictionary holds a key twice.
pub open spec fn well_formed(v: Datum) -> bool
    decreases v,
{
    match v {
        Datum::List(items) => forall|i: int|
            0 <= i < items.len() ==> well_formed(#[trigger] items[i]),
        Datum::Dict(entries) => distinct_keys(entries) && forall|i: int|
            0 <= i < entries.len() ==> well_formed((#[trigger] entries[i]).1),
        Datum::Tuple(first, second) => well_formed(*first) && well_formed(*second),
        _ => true,
    }
}

/// True where each value of `entries` is well formed.
pub open spec fn well_formed_values(entries: Seq<(Seq<char>, Datum)>) -> bool {
    forall|i: int| 0 <= i < entries.len() ==> well_formed((#[trigger] entries[i]).1)
}

/// What the place of a key says: the key stands there and nowhere before;
/// no place, and the key stands nowhere.
pub proof fn lemma_key_position(entries: Seq<(Seq<char>, Datum)>, key: Seq<char>)
    ensures
        match key_position(entries, key) {
            Some(at) => 0 <= at < entries.len() && entries[at].0 == key && forall|i: int|
                0 <= i < at ==> (#[trigger] entries[i]).0 != key,
            None => forall|i: int| 0 <= i < entries.len() ==> (#[trigger] entries[i]).0 != key,
        },
    decreases entries.len(),
{
    if entries.len() > 0 {
        lemma_key_position(entries.drop_last(), key);
        assert forall|i: int| 0 <= i < entries.len() - 1 implies entries[i]
            == entries.drop_last()[i] by {}
    }
}

/// Putting a value under a key keeps the keys distinct and the values well
/// formed.
pub proof fn lemma_with_entry_keeps(entries: Seq<(Seq<char>, Datum)>, key: Seq<char>, v: Datum)
    requires
        distinct_keys(entries),
        well_formed_values(entries),
        well_formed(v),
    ensures
        distinct_keys(with_entry(entries, key, v)),
        well_formed_values(with_entry(entries, key, v)),
{
    lemma_key_position(entries, key);
}

/// A new key goes to the end.
pub proof fn lemma_with_entry_new(entries: Seq<(Seq<char>, Datum)>, key: Seq<char>, v: Datum)
    requires
        forall|i: int| 0 <= i < entries.len() ==> (#[trigger] entries[i]).0 != key,
    ensures
        with_entry(entries, key, v) == entries.push((key, v)),
{
    lemma_key_position(entries, key);
}

/// The first place at which `key` stands in `entries`.
pub fn find_key(entries: &Vec<(String, DValue)>, key: &String) -> (r: Option<usize>)
    ensures
        match r {
            Some(at) => at < entries@.len() && key_position(entry_models(entries@), key@) == Some(
                at as int,
            ),
            None => key_position(entry_models(entries@), key@) is None,
        },
{
    let ghost all = entry_models(entries@);
    let mut i: usize = 0;
    while i < entries.len()
        invariant
            i <= entries@.len(),
            all == entry_models(entries@),
            key_position(all.take(i as int), key@) is None,
        decreases entries@.len() - i,
    {
        proof {
            assert(all.take(i + 1).drop_last() =~= all.take(i as int));
            assert(all.take(i + 1).last() == all[i as int]);
        }
        if entries[i].0 == *key {
            proof {
                lemma_key_position_prefix(all, key@, i + 1);
            }
            return Some(i);
        }
        i += 1;
    }
    assert(all.take(i as int) =~= all);
    None
}

/// `entries` with `value` under `key`: in the place of the value that stood
/// under `key`, or at the end where `key` is new.
pub fn dict_insert(entries: &mut Vec<(String, DValue)>, key: String, value: DValue)
    ensures
        entry_models(final(entries)@) == with_entry(entry_models(old(entries)@), key@, value@),
{
    let ghost before = entry_models(entries@);
    match find_key(entries, &key) {
        Some(at) => {
            entries.set(at, (key, value));
            assert(entry_models(entries@) =~= before.update(at as int, (key@, value@)));
        },
        None => {
            entries.push((key, value));
            assert(entry_models(entries@) =~= before.push((key@, value@)));
        },
    }
}

/// A key that stands among the first `k` entries stands at the same place
/// among all of them.
proof fn lemma_key_position_prefix(entries: Seq<(Seq<char>, Datum)>, key: Seq<char>, k: int)
    requires
        0 <= k <= entries.len(),
        key_position(entries.take(k), key) is Some,
    ensures
        key_position(entries, key) == key_position(entries.take(k), key),
    decreases entries.len(),
{
    if k == entries.len() {
        assert(entries.take(k) =~= entries);
    } else {
        assert(entries.drop_last().take(k) =~= entries.take(k));
        lemma_key_position_prefix(entries.drop_last(), key, k);
    }
}

} // verus!
