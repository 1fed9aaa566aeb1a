//! Tables keyed by task keys, with lookups by key.
use vstd::prelude::*;
use crate::tasks::db::TaskKey;

verus! {

/// The keys of a keyed table, in order.
pub open spec fn keys_of<T>(items: Seq<(TaskKey, T)>) -> Seq<(Seq<char>, Seq<char>)> {
    items.map_values(|e: (TaskKey, T)| e.0@)
}

/// Every key occurs at most once.
pub open spec fn unique_keys<T>(items: Seq<(TaskKey, T)>) -> bool {
    forall|a: int, b: int|
        0 <= a < items.len() && 0 <= b < items.len() && a != b ==> items[a].0@ != items[b].0@
}

/// Position of the first item with key `key`, or -1 when none has it.
pub open spec fn key_position<T>(items: Seq<(TaskKey, T)>, key: (Seq<char>, Seq<char>)) -> int
    decreases items.len(),
{
    if items.len() == 0 {
        -1
    } else if key_position(items.drop_last(), key) >= 0 {
        key_position(items.drop_last(), key)
    } else if items.last().0@ == key {
        items.len() - 1
    } else {
        -1
    }
}

/// Whether the table has an item with key `key`.
pub open spec fn has_key<T>(items: Seq<(TaskKey, T)>, key: (Seq<char>, Seq<char>)) -> bool {
    key_position(items, key) >= 0
}

/// Facts about [`key_position`].
pub proof fn lemma_key_position<T>(items: Seq<(TaskKey, T)>, key: (Seq<char>, Seq<char>))
    ensures
        -1 <= key_position(items, key) < items.len(),
        key_position(items, key) == -1 <==> (forall|k: int|
            0 <= k < items.len() ==> #[trigger] items[k].0@ != key),
        key_position(items, key) >= 0 ==> items[key_position(items, key)].0@ == key,
        key_position(items, key) >= 0 ==> (forall|k: int|
            0 <= k < key_position(items, key) ==> #[trigger] items[k].0@ != key),
    decreases items.len(),
{
    if items.len() > 0 {
        let front = items.drop_last();
        lemma_key_position(front, key);
        if key_position(front, key) == -1 {
            assert forall|k: int| 0 <= k < front.len() implies #[trigger] items[k].0@ != key by {
                assert(front[k].0@ != key);
            }
            if items.last().0@ != key {
                assert forall|k: int| 0 <= k < items.len() implies #[trigger] items[k].0@ != key by {
                    if k < front.len() {
                        assert(front[k].0@ != key);
                    }
                }
            }
        } else {
            let p = key_position(front, key);
            assert forall|k: int| 0 <= k < p implies #[trigger] items[k].0@ != key by {
                assert(front[k].0@ != key);
            }
            assert(items[p].0@ == front[p].0@);
        }
    }
}

/// With distinct keys, the position of each item's key is the item's own position.
pub proof fn lemma_key_position_unique<T>(items: Seq<(TaskKey, T)>, k: int)
    requires
        unique_keys(items),
        0 <= k < items.len(),
    ensures
        key_position(items, items[k].0@) == k,
{
    lemma_key_position(items, items[k].0@);
    let p = key_position(items, items[k].0@);
    if p != k {
        assert(items[p].0@ == items[k].0@);
    }
}

/// Tables with the same keys at the same positions give the same position for every key.
pub proof fn lemma_key_position_same_keys<T, U>(
    a: Seq<(TaskKey, T)>,
    b: Seq<(TaskKey, U)>,
    key: (Seq<char>, Seq<char>),
)
    requires
        a.len() == b.len(),
        forall|k: int| 0 <= k < a.len() ==> (#[trigger] a[k]).0@ == b[k].0@,
    ensures
        key_position(a, key) == key_position(b, key),
    decreases a.len(),
{
    if a.len() > 0 {
        lemma_key_position_same_keys(a.drop_last(), b.drop_last(), key);
        assert(a.last().0@ == b.last().0@);
    }
}

/// Finds the first item with key `key`.
pub fn find_key<T>(items: &Vec<(TaskKey, T)>, key: &TaskKey) -> (pos: Option<usize>)
    ensures
        match pos {
            Some(p) => p == key_position(items@, key@),
            None => key_position(items@, key@) == -1,
        },
{
    proof {
        lemma_key_position(items@, key@);
    }
    let mut i: usize = 0;
    while i < items.len()
        invariant
            i <= items.len(),
            forall|k: int| 0 <= k < i ==> #[trigger] items@[k].0@ != key@,
        decreases items.len() - i,
    {
        if items[i].0.same(key) {
            proof {
                lemma_key_position(items@, key@);
                if key_position(items@, key@) < i {
                    let q = key_position(items@, key@);
                    assert(items@[q].0@ != key@);
                }
            }
            return Some(i);
        }
        i = i + 1;
    }
    None
}

/// The views of a list of keys.
pub open spec fn key_list_view(v: Seq<TaskKey>) -> Seq<(Seq<char>, Seq<char>)> {
    v.map_values(|k: TaskKey| k@)
}

/// Whether a list of keys holds a key.
pub fn list_has_key(list: &Vec<TaskKey>, key: &TaskKey) -> (b: bool)
    ensures
        b == key_list_view(list@).contains(key@),
{
    let mut i: usize = 0;
    while i < list.len()
        invariant
            i <= list.len(),
            forall|k: int| 0 <= k < i ==> (#[trigger] list@[k])@ != key@,
        decreases list.len() - i,
    {
        if list[i].same(key) {
            assert(key_list_view(list@)[i as int] == key@);
            return true;
        }
        i = i + 1;
    }
    proof {
        if key_list_view(list@).contains(key@) {
            let q = choose|q: int| 0 <= q < key_list_view(list@).len() && key_list_view(list@)[q] == key@;
            assert(list@[q]@ == key@);
        }
    }
    false
}

} // verus!
