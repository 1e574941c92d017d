use vstd::prelude::*;

use crate::entry::EntryModel;
use crate::model::{apply_entry, apply_log};

verus! {

/// Freshness: after a write of `value` to `key`, replaying any further
/// entries, none of which touches `key`, still finds `value` there.
///
/// The store's operations change its mapping by exactly one [`apply_entry`]
/// step each (`set` inserts, a successful `remove` deletes, `get` changes
/// nothing and reads the mapping), so this is the law that a `get` after a
/// `set` of `key`, with no intervening `set` or `remove` of that same key,
/// returns the value just set.
pub proof fn lemma_freshness(
    m: Map<Seq<char>, Seq<char>>,
    key: Seq<char>,
    value: Seq<char>,
    rest: Seq<EntryModel>,
)
    requires
        forall|i: int| 0 <= i < rest.len() ==> (#[trigger] rest[i]).key() != key,
    ensures
        apply_log(m.insert(key, value), rest).contains_key(key),
        apply_log(m.insert(key, value), rest)[key] == value,
    decreases rest.len(),
{
    if rest.len() > 0 {
        let front = rest.drop_last();
        assert(forall|i: int| 0 <= i < front.len() ==> (#[trigger] front[i]) == rest[i]);
        lemma_freshness(m, key, value, front);
        assert(rest[rest.len() - 1].key() != key);
        assert(apply_entry(apply_log(m.insert(key, value), front), rest.last()).contains_key(key));
    }
}

/// Tombstone: after a removal of `key`, replaying any further entries,
/// none of which writes `key`, still finds it absent.
///
/// With the operations' contracts this is the law that after `remove(key)`
/// every `get(key)` returns "not found" until a later `set(key, _)`, and
/// that a second `remove(key)` fails with a key-not-found error.
pub proof fn lemma_tombstone(m: Map<Seq<char>, Seq<char>>, key: Seq<char>, rest: Seq<EntryModel>)
    requires
        forall|i: int| 0 <= i < rest.len() ==> (#[trigger] rest[i]).key() != key,
    ensures
        !apply_log(m.remove(key), rest).contains_key(key),
    decreases rest.len(),
{
    if rest.len() > 0 {
        let front = rest.drop_last();
        assert(forall|i: int| 0 <= i < front.len() ==> (#[trigger] front[i]) == rest[i]);
        lemma_tombstone(m, key, front);
        assert(rest[rest.len() - 1].key() != key);
    }
}

} // verus!
