//! The entry store shared by the collector and the runtime table: a vector
//! of keyed items viewed as a map from key to item.

use crate::codec::Compression;
use vstd::prelude::*;

verus! {

/// One stored entry: its lookup key, its compression tag, the location it
/// was collected from, and the payload bytes as they will be embedded.
pub(crate) struct Item {
    pub key: String,
    pub compression: Compression,
    pub location: String,
    pub payload: Vec<u8>,
}

/// One entry as the contracts see it.
pub struct ItemModel {
    pub compression: Compression,
    pub location: Seq<char>,
    pub payload: Seq<u8>,
}

impl Item {
    /// The entry as the contracts see it.
    pub(crate) open spec fn model(self) -> ItemModel {
        ItemModel { compression: self.compression, location: self.location@, payload: self.payload@ }
    }
}

/// No two items share a key.
pub(crate) open spec fn uniq_keys(items: Seq<Item>) -> bool {
    forall|i: int, j: int|
        0 <= i < j < items.len() ==> (#[trigger] items[i]).key@ != (#[trigger] items[j]).key@
}

/// The items as a map from key to item model.
pub(crate) open spec fn item_map(items: Seq<Item>) -> Map<Seq<char>, ItemModel> {
    Map::new(
        |k: Seq<char>| exists|i: int| 0 <= i < items.len() && (#[trigger] items[i]).key@ == k,
        |k: Seq<char>|
            {
                let i = choose|i: int| 0 <= i < items.len() && (#[trigger] items[i]).key@ == k;
                items[i].model()
            },
    )
}

/// Under unique keys, the map reads each item back at its own key.
pub(crate) proof fn lemma_item_map_index(items: Seq<Item>, i: int)
    requires
        uniq_keys(items),
        0 <= i < items.len(),
    ensures
        item_map(items).contains_key(items[i].key@),
        item_map(items)[items[i].key@] == items[i].model(),
{
    let k = items[i].key@;
    assert(item_map(items).contains_key(k));
    let j = choose|j: int| 0 <= j < items.len() && (#[trigger] items[j]).key@ == k;
    if j < i {
        assert(items[j].key@ != items[i].key@);
    } else if i < j {
        assert(items[i].key@ != items[j].key@);
    }
}

/// A key the map holds is the key of some item.
pub(crate) proof fn lemma_item_map_key(items: Seq<Item>, k: Seq<char>) -> (i: int)
    requires
        item_map(items).contains_key(k),
    ensures
        0 <= i < items.len(),
        items[i].key@ == k,
{
    choose|i: int| 0 <= i < items.len() && (#[trigger] items[i]).key@ == k
}

/// The index of the item holding `key`, when there is one.
pub(crate) fn find_index(items: &Vec<Item>, key: &String) -> (r: Option<usize>)
    ensures
        r matches Some(i) ==> i < items@.len() && items@[i as int].key@ == key@,
        r is None ==> forall|i: int| 0 <= i < items@.len() ==> items@[i].key@ != key@,
{
    let mut i: usize = 0;
    while i < items.len()
        invariant
            i <= items@.len(),
            forall|j: int| 0 <= j < i ==> items@[j].key@ != key@,
        decreases items@.len() - i,
    {
        if items[i].key.eq(key) {
            return Some(i);
        }
        i += 1;
    }
    None
}

/// Puts `item` into the store, replacing any entry that already holds its
/// key: the map view gains exactly one binding.
pub(crate) fn store(items: &mut Vec<Item>, item: Item)
    requires
        uniq_keys(old(items)@),
    ensures
        uniq_keys(final(items)@),
        item_map(final(items)@) == item_map(old(items)@).insert(item.key@, item.model()),
{
    let ghost orig = items@;
    match find_index(items, &item.key) {
        Some(i) => {
            proof {
                assert(orig[i as int].key@ == item.key@);
            }
            items[i] = item;
            proof {
                lemma_update_binding(orig, items@, i as int, item);
            }
        },
        None => {
            items.push(item);
            proof {
                lemma_push_binding(orig, items@, item);
            }
        },
    }
}

/// Overwriting the one item that holds a key rebinds that key alone.
proof fn lemma_update_binding(orig: Seq<Item>, now: Seq<Item>, i: int, item: Item)
    requires
        uniq_keys(orig),
        0 <= i < orig.len(),
        orig[i].key@ == item.key@,
        now == orig.update(i, item),
    ensures
        uniq_keys(now),
        item_map(now) == item_map(orig).insert(item.key@, item.model()),
{
    let k = item.key@;
    assert forall|j: int| 0 <= j < now.len() implies (#[trigger] now[j]).key@ == orig[j].key@ by {
        if j != i {
            assert(now[j] == orig[j]);
        }
    }
    assert(uniq_keys(now));
    let target = item_map(orig).insert(k, item.model());
    assert forall|k2: Seq<char>| #[trigger] item_map(now).contains_key(k2) implies target
        .contains_key(k2) && item_map(now)[k2] == target[k2] by {
        let j = lemma_item_map_key(now, k2);
        lemma_item_map_index(now, j);
        if j == i {
            assert(k2 == k);
        } else {
            assert(now[j] == orig[j]);
            lemma_item_map_index(orig, j);
            if k2 == k {
                assert(orig[j].key@ != orig[i].key@);
            }
        }
    }
    assert forall|k2: Seq<char>| #[trigger] target.contains_key(k2) implies item_map(
        now,
    ).contains_key(k2) by {
        if k2 == k {
            assert(now[i].key@ == k2);
        } else {
            let j = lemma_item_map_key(orig, k2);
            assert(now[j].key@ == k2);
        }
    }
    assert(item_map(now) =~= target);
}

/// Pushing an item whose key is fresh adds that one binding.
proof fn lemma_push_binding(orig: Seq<Item>, now: Seq<Item>, item: Item)
    requires
        uniq_keys(orig),
        forall|j: int| 0 <= j < orig.len() ==> (#[trigger] orig[j]).key@ != item.key@,
        now == orig.push(item),
    ensures
        uniq_keys(now),
        item_map(now) == item_map(orig).insert(item.key@, item.model()),
{
    let k = item.key@;
    assert forall|a: int, b: int| 0 <= a < b < now.len() implies (#[trigger] now[a]).key@ != (
    #[trigger] now[b]).key@ by {
        if b < now.len() - 1 {
            assert(now[a] == orig[a] && now[b] == orig[b]);
        } else {
            assert(now[a] == orig[a] && now[b] == item);
        }
    }
    let target = item_map(orig).insert(k, item.model());
    assert forall|k2: Seq<char>| #[trigger] item_map(now).contains_key(k2) implies target
        .contains_key(k2) && item_map(now)[k2] == target[k2] by {
        let j = lemma_item_map_key(now, k2);
        lemma_item_map_index(now, j);
        if j == now.len() - 1 {
            assert(now[j] == item);
        } else {
            assert(now[j] == orig[j]);
            lemma_item_map_index(orig, j);
        }
    }
    assert forall|k2: Seq<char>| #[trigger] target.contains_key(k2) implies item_map(
        now,
    ).contains_key(k2) by {
        if k2 == k {
            assert(now[now.len() - 1].key@ == k2);
        } else {
            let j = lemma_item_map_key(orig, k2);
            assert(now[j].key@ == k2);
        }
    }
    assert(item_map(now) =~= target);
}

} // verus!
