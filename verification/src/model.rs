use vstd::prelude::*;

use crate::entry::EntryModel;
use crate::path::spec_segment_file_name;

verus! {

// ---------------------------------------------------------------------------
// The replay model
//
// The store's meaning is a map from keys to values, obtained by replaying
// the log's entries oldest first: a write inserts its mapping, a removal
// deletes it, and the last entry per key wins.
// ---------------------------------------------------------------------------

/// One replay step: how a single entry changes the key-value map.
pub open spec fn apply_entry(
    m: Map<Seq<char>, Seq<char>>,
    e: EntryModel,
) -> Map<Seq<char>, Seq<char>> {
    match e {
        EntryModel::Put { key, value } => m.insert(key, value),
        EntryModel::Rm { key } => m.remove(key),
    }
}

/// Replays a sequence of entries over a starting map, oldest first.
pub open spec fn apply_log(
    m: Map<Seq<char>, Seq<char>>,
    es: Seq<EntryModel>,
) -> Map<Seq<char>, Seq<char>>
    decreases es.len(),
{
    if es.len() == 0 {
        m
    } else {
        apply_entry(apply_log(m, es.drop_last()), es.last())
    }
}

/// Replays a whole log from nothing: how recovery rebuilds the map.
pub open spec fn replay(es: Seq<EntryModel>) -> Map<Seq<char>, Seq<char>> {
    apply_log(Map::empty(), es)
}

// ---------------------------------------------------------------------------
// The directory model: segments as maps
// ---------------------------------------------------------------------------

/// The id-to-text map of a segment sequence.
pub open spec fn seg_map(segs: Seq<(u64, Seq<char>)>) -> Map<u64, Seq<char>>
    decreases segs.len(),
{
    if segs.len() == 0 {
        Map::empty()
    } else {
        seg_map(segs.drop_last()).insert(segs.last().0, segs.last().1)
    }
}

/// The name-to-text map of the segment files as they stand on disk.
pub open spec fn seg_files_by_name(segs: Seq<(u64, Seq<char>)>) -> Map<Seq<char>, Seq<char>>
    decreases segs.len(),
{
    if segs.len() == 0 {
        Map::empty()
    } else {
        seg_files_by_name(segs.drop_last()).insert(
            spec_segment_file_name(segs.last().0 as nat),
            segs.last().1,
        )
    }
}

/// A segment sequence is sorted strictly ascending by id.
pub open spec fn segs_sorted(segs: Seq<(u64, Seq<char>)>) -> bool {
    forall|i: int, j: int| 0 <= i < j < segs.len() ==> (#[trigger] segs[i]).0 < (#[trigger] segs[j]).0
}

/// Which ids `seg_map` knows: exactly the ids of the sequence.
pub proof fn lemma_seg_map_domain(segs: Seq<(u64, Seq<char>)>, id: u64)
    ensures
        seg_map(segs).contains_key(id) <==> exists|m: int|
            0 <= m < segs.len() && (#[trigger] segs[m]).0 == id,
    decreases segs.len(),
{
    if segs.len() > 0 {
        let front = segs.drop_last();
        lemma_seg_map_domain(front, id);
        if segs.last().0 == id {
            assert(segs[segs.len() - 1].0 == id);
        } else if seg_map(segs).contains_key(id) {
            let m = choose|m: int| 0 <= m < front.len() && (#[trigger] front[m]).0 == id;
            assert(segs[m].0 == id);
        } else {
            assert forall|m: int| 0 <= m < segs.len() implies (#[trigger] segs[m]).0 != id by {
                if m < segs.len() - 1 {
                    assert(front[m] == segs[m]);
                }
            }
        }
    }
}

/// In a sorted sequence, `seg_map` sends each id to that segment's text.
pub proof fn lemma_seg_map_of_sorted(segs: Seq<(u64, Seq<char>)>, m: int)
    requires
        segs_sorted(segs),
        0 <= m < segs.len(),
    ensures
        seg_map(segs).contains_key(segs[m].0),
        seg_map(segs)[segs[m].0] == segs[m].1,
    decreases segs.len(),
{
    if segs.len() > 0 {
        if m == segs.len() - 1 {
        } else {
            assert(segs.drop_last()[m] == segs[m]);
            assert(segs[m].0 < segs.last().0);
            lemma_seg_map_of_sorted(segs.drop_last(), m);
        }
    }
}

/// Two sorted segment sequences describing the same id-to-text map are the
/// same sequence: the directory contents determine the mirrored log.
pub proof fn lemma_sorted_segs_unique(s1: Seq<(u64, Seq<char>)>, s2: Seq<(u64, Seq<char>)>)
    requires
        segs_sorted(s1),
        segs_sorted(s2),
        seg_map(s1) == seg_map(s2),
    ensures
        s1 == s2,
    decreases s1.len(),
{
    if s1.len() == 0 {
        if s2.len() > 0 {
            lemma_seg_map_domain(s2, s2.last().0);
            assert(s2[s2.len() - 1].0 == s2.last().0);
            assert(seg_map(s1).contains_key(s2.last().0));
        }
        assert(s1 =~= s2);
    } else {
        if s2.len() == 0 {
            lemma_seg_map_domain(s1, s1.last().0);
            assert(s1[s1.len() - 1].0 == s1.last().0);
            assert(seg_map(s2).contains_key(s1.last().0));
        }
        let id1 = s1.last().0;
        let id2 = s2.last().0;
        // each last id is the largest of the shared domain, so they agree
        assert(s1[s1.len() - 1].0 == id1);
        lemma_seg_map_domain(s1, id1);
        lemma_seg_map_domain(s2, id1);
        let m2 = choose|m: int| 0 <= m < s2.len() && (#[trigger] s2[m]).0 == id1;
        assert(m2 < s2.len() - 1 ==> s2[m2].0 < s2[s2.len() - 1].0);
        assert(id1 <= id2);
        assert(s2[s2.len() - 1].0 == id2);
        lemma_seg_map_domain(s2, id2);
        lemma_seg_map_domain(s1, id2);
        let m1 = choose|m: int| 0 <= m < s1.len() && (#[trigger] s1[m]).0 == id2;
        assert(m1 < s1.len() - 1 ==> s1[m1].0 < s1[s1.len() - 1].0);
        assert(id1 == id2);
        // and they carry the same text
        lemma_seg_map_of_sorted(s1, s1.len() - 1);
        lemma_seg_map_of_sorted(s2, s2.len() - 1);
        assert(s1.last() == s2.last());
        // the fronts describe the same map, and are sorted
        let f1 = s1.drop_last();
        let f2 = s2.drop_last();
        assert(segs_sorted(f1)) by {
            assert(forall|i: int, j: int|
                0 <= i < j < f1.len() ==> (#[trigger] f1[i]) == s1[i] && (#[trigger] f1[j])
                    == s1[j]);
        }
        assert(segs_sorted(f2)) by {
            assert(forall|i: int, j: int|
                0 <= i < j < f2.len() ==> (#[trigger] f2[i]) == s2[i] && (#[trigger] f2[j])
                    == s2[j]);
        }
        assert(seg_map(f1) == seg_map(f2)) by {
            assert(!seg_map(f1).contains_key(id1)) by {
                lemma_seg_map_domain(f1, id1);
                if seg_map(f1).contains_key(id1) {
                    let m = choose|m: int| 0 <= m < f1.len() && (#[trigger] f1[m]).0 == id1;
                    assert(s1[m] == f1[m]);
                }
            }
            assert(!seg_map(f2).contains_key(id1)) by {
                lemma_seg_map_domain(f2, id1);
                if seg_map(f2).contains_key(id1) {
                    let m = choose|m: int| 0 <= m < f2.len() && (#[trigger] f2[m]).0 == id1;
                    assert(s2[m] == f2[m]);
                }
            }
            assert(seg_map(f1) =~= seg_map(s1).remove(id1));
            assert(seg_map(f2) =~= seg_map(s2).remove(id1));
        }
        lemma_sorted_segs_unique(f1, f2);
        assert(s1 =~= s2) by {
            assert forall|i: int| 0 <= i < s1.len() implies s1[i] == s2[i] by {
                if i < s1.len() - 1 {
                    assert(f1[i] == s1[i]);
                    assert(f2[i] == s2[i]);
                }
            }
        }
    }
}

/// Two key-value maps agree on every key but (possibly) `k`.
pub open spec fn agree_except(
    a: Map<Seq<char>, Seq<char>>,
    b: Map<Seq<char>, Seq<char>>,
    k: Seq<char>,
) -> bool {
    forall|x: Seq<char>|
        #![trigger a.contains_key(x)]
        #![trigger b.contains_key(x)]
        x != k ==> (a.contains_key(x) <==> b.contains_key(x)) && (a.contains_key(x)
            ==> a[x] == b[x])
}

/// Replaying the same entry over maps that agree off `k` keeps them
/// agreeing off `k`.
proof fn lemma_agree_except_apply(
    a: Map<Seq<char>, Seq<char>>,
    b: Map<Seq<char>, Seq<char>>,
    k: Seq<char>,
    e: EntryModel,
)
    requires
        agree_except(a, b, k),
    ensures
        agree_except(apply_entry(a, e), apply_entry(b, e), k),
{
}

/// Dropping one entry from a log changes the replayed map at most at that
/// entry's key.
proof fn lemma_apply_log_remove_agrees(m: Map<Seq<char>, Seq<char>>, es: Seq<EntryModel>, i: int)
    requires
        0 <= i < es.len(),
    ensures
        agree_except(apply_log(m, es.remove(i)), apply_log(m, es), es[i].key()),
    decreases es.len(),
{
    let front = es.drop_last();
    if i == es.len() - 1 {
        assert(es.remove(i) =~= front);
    } else {
        assert(es.remove(i).drop_last() =~= front.remove(i));
        assert(es.remove(i).last() == es.last());
        assert(front[i] == es[i]);
        lemma_apply_log_remove_agrees(m, front, i);
        lemma_agree_except_apply(
            apply_log(m, front.remove(i)),
            apply_log(m, front),
            es[i].key(),
            es.last(),
        );
    }
}

/// Dropping an entry that a later entry of the same key shadows does not
/// change the replayed map at all: the later entry decides the key either
/// way. This is why compaction is safe.
pub proof fn lemma_apply_log_remove_shadowed(
    m: Map<Seq<char>, Seq<char>>,
    es: Seq<EntryModel>,
    i: int,
    j: int,
)
    requires
        0 <= i < j < es.len(),
        es[i].key() == es[j].key(),
    ensures
        apply_log(m, es.remove(i)) == apply_log(m, es),
    decreases es.len(),
{
    let front = es.drop_last();
    assert(es.remove(i).drop_last() =~= front.remove(i));
    assert(es.remove(i).last() == es.last());
    if j == es.len() - 1 {
        lemma_apply_log_remove_agrees(m, front, i);
        let a = apply_log(m, front.remove(i));
        let b = apply_log(m, front);
        assert(front[i] == es[i]);
        assert(apply_entry(a, es.last()) =~= apply_entry(b, es.last()));
    } else {
        assert(front[i] == es[i] && front[j] == es[j]);
        lemma_apply_log_remove_shadowed(m, front, i, j);
    }
}

/// Which names `seg_files_by_name` knows: exactly the segments' file names.
pub proof fn lemma_seg_files_by_name_domain(segs: Seq<(u64, Seq<char>)>, name: Seq<char>)
    ensures
        seg_files_by_name(segs).contains_key(name) <==> exists|m: int|
            0 <= m < segs.len() && spec_segment_file_name((#[trigger] segs[m]).0 as nat) == name,
    decreases segs.len(),
{
    if segs.len() > 0 {
        let front = segs.drop_last();
        lemma_seg_files_by_name_domain(front, name);
        if spec_segment_file_name(segs.last().0 as nat) == name {
            assert(spec_segment_file_name(segs[segs.len() - 1].0 as nat) == name);
        } else if seg_files_by_name(segs).contains_key(name) {
            let m = choose|m: int|
                0 <= m < front.len() && spec_segment_file_name((#[trigger] front[m]).0 as nat)
                    == name;
            assert(segs[m] == front[m]);
        } else {
            assert forall|m: int|
                0 <= m < segs.len() implies spec_segment_file_name((#[trigger] segs[m]).0 as nat)
                != name by {
                if m < segs.len() - 1 {
                    assert(front[m] == segs[m]);
                }
            }
        }
    }
}

/// Removing a segment whose id no other segment carries removes exactly
/// its file from the directory map.
pub proof fn lemma_seg_files_by_name_remove(segs: Seq<(u64, Seq<char>)>, i: int)
    requires
        0 <= i < segs.len(),
        forall|m: int| 0 <= m < segs.len() && m != i ==> (#[trigger] segs[m]).0 != segs[i].0,
    ensures
        seg_files_by_name(segs.remove(i)) == seg_files_by_name(segs).remove(
            spec_segment_file_name(segs[i].0 as nat),
        ),
    decreases segs.len(),
{
    let name = spec_segment_file_name(segs[i].0 as nat);
    let front = segs.drop_last();
    if i == segs.len() - 1 {
        assert(segs.remove(i) =~= front);
        assert(!seg_files_by_name(front).contains_key(name)) by {
            lemma_seg_files_by_name_domain(front, name);
            if seg_files_by_name(front).contains_key(name) {
                let m = choose|m: int|
                    0 <= m < front.len() && spec_segment_file_name((#[trigger] front[m]).0 as nat)
                        == name;
                assert(front[m] == segs[m]);
                crate::path::lemma_segment_file_name_injective(segs[m].0 as nat, segs[i].0 as nat);
            }
        }
        assert(seg_files_by_name(front) =~= seg_files_by_name(front).insert(
            name,
            segs.last().1,
        ).remove(name));
    } else {
        assert(segs.remove(i).drop_last() =~= front.remove(i));
        assert(segs.remove(i).last() == segs.last());
        assert(front[i] == segs[i]);
        assert forall|m: int| 0 <= m < front.len() && m != i implies (#[trigger] front[m]).0
            != front[i].0 by {
            assert(front[m] == segs[m]);
        }
        lemma_seg_files_by_name_remove(front, i);
        assert(segs[segs.len() - 1].0 != segs[i].0);
        crate::path::lemma_segment_file_name_round_trip(segs.last().0 as nat);
        crate::path::lemma_segment_file_name_round_trip(segs[i].0 as nat);
        assert(spec_segment_file_name(segs.last().0 as nat) != name);
        assert(seg_files_by_name(front).remove(name).insert(
            spec_segment_file_name(segs.last().0 as nat),
            segs.last().1,
        ) =~= seg_files_by_name(front).insert(
            spec_segment_file_name(segs.last().0 as nat),
            segs.last().1,
        ).remove(name));
    }
}

/// Inserting a segment whose id no present segment carries inserts its
/// mapping, wherever in the sequence it lands.
pub proof fn lemma_seg_map_insert(segs: Seq<(u64, Seq<char>)>, pos: int, e: (u64, Seq<char>))
    requires
        0 <= pos <= segs.len(),
        forall|m: int| 0 <= m < segs.len() ==> (#[trigger] segs[m]).0 != e.0,
    ensures
        seg_map(segs.insert(pos, e)) == seg_map(segs).insert(e.0, e.1),
    decreases segs.len(),
{
    let grown = segs.insert(pos, e);
    if pos == segs.len() {
        assert(grown.drop_last() =~= segs);
        assert(grown.last() == e);
    } else {
        let front = segs.drop_last();
        assert(grown.drop_last() =~= front.insert(pos, e));
        assert(grown.last() == segs.last());
        assert forall|m: int| 0 <= m < front.len() implies (#[trigger] front[m]).0 != e.0 by {
            assert(front[m] == segs[m]);
        }
        lemma_seg_map_insert(front, pos, e);
        assert(segs[segs.len() - 1].0 != e.0);
        assert(seg_map(segs.drop_last()).insert(e.0, e.1).insert(segs.last().0, segs.last().1)
            =~= seg_map(segs.drop_last()).insert(segs.last().0, segs.last().1).insert(e.0, e.1));
    }
}

} // verus!
