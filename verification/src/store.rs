use vstd::prelude::*;

use vstd::hash_map::StringHashMap;
use vstd::string::StrSliceExecFns;
use vstd::string::StringExecFns;

use crate::codec::{decode, spec_decode, spec_encode};
use crate::entry::{Entry, EntryModel};
use crate::error::{ErrorKind, KvsError};
use crate::model::{
    apply_entry, replay, seg_files_by_name, seg_map, segs_sorted, lemma_seg_map_domain,
    lemma_seg_map_insert, lemma_seg_map_of_sorted,
};
use crate::path::{segment_file_name, spec_parse_segment_id, spec_segment_file_name, ParsePath};
use crate::position::Position;
use crate::reader::BufReaderWithPosition;
use crate::writer::BufWriterWithPosition;

verus! {

/// After this many mutations without a compaction, the next mutation
/// triggers one.
pub const COMPACTION_MINIMUM: u64 = 500;

/// A file operation the store has decided on. The store performs no I/O
/// itself: the embedding program drains these with
/// [`KvStore::take_pending_ops`] and applies each, in order, to the store
/// directory.
#[derive(Debug, Clone, PartialEq, Eq)]
pub enum DiskOp {
    /// Create (or replace) the file `name` with the text `content`.
    WriteFile {
        /// The file's name within the store directory.
        name: String,
        /// The file's full text.
        content: String,
    },
    /// Delete the file `name`.
    RemoveFile {
        /// The file's name within the store directory.
        name: String,
    },
}

/// One segment file as it stands in the store directory: its file name and
/// its full text.
#[derive(Debug, Clone, PartialEq, Eq)]
pub struct SegmentFile {
    /// The file's name within the store directory.
    pub name: String,
    /// The file's full text.
    pub content: String,
}

/// Applying one recorded file operation to a directory (name to text).
pub open spec fn apply_disk_op(
    files: Map<Seq<char>, Seq<char>>,
    op: DiskOp,
) -> Map<Seq<char>, Seq<char>> {
    match op {
        DiskOp::WriteFile { name, content } => files.insert(name@, content@),
        DiskOp::RemoveFile { name } => files.remove(name@),
    }
}

/// Applying recorded file operations in order.
pub open spec fn apply_disk_ops(
    files: Map<Seq<char>, Seq<char>>,
    ops: Seq<DiskOp>,
) -> Map<Seq<char>, Seq<char>>
    decreases ops.len(),
{
    if ops.len() == 0 {
        files
    } else {
        apply_disk_op(apply_disk_ops(files, ops.drop_last()), ops.last())
    }
}

/// The (id, text) form of the mirrored segments.
pub open spec fn disk_of(readers: Seq<(u64, BufReaderWithPosition)>) -> Seq<(u64, Seq<char>)> {
    readers.map_values(|seg: (u64, BufReaderWithPosition)| (seg.0, seg.1@))
}

/// The entry a segment holds (meaningful when its text decodes).
pub open spec fn entry_of(seg: (u64, Seq<char>)) -> EntryModel {
    spec_decode(seg.1).unwrap()
}

/// The entries of a segment sequence, in order.
pub open spec fn entries_of(segs: Seq<(u64, Seq<char>)>) -> Seq<EntryModel> {
    segs.map_values(|seg: (u64, Seq<char>)| entry_of(seg))
}

/// Whether the very segment `seg` (same id, same text) stands in `segs`.
pub open spec fn seg_present(segs: Seq<(u64, Seq<char>)>, seg: (u64, Seq<char>)) -> bool {
    exists|m: int| 0 <= m < segs.len() && segs[m] == seg
}

/// Whether some newer (later) segment of `segs` carries the same key as
/// the segment at `n`. A shadowed segment can never decide its key.
pub open spec fn shadowed(segs: Seq<(u64, Seq<char>)>, n: int) -> bool {
    exists|n2: int| n < n2 < segs.len() && entry_of(#[trigger] segs[n2]).key() == entry_of(segs[n]).key()
}

/// No two entries of the log carry the same key: at most one segment per
/// key, which is what compaction leaves behind.
pub open spec fn distinct_keys(es: Seq<EntryModel>) -> bool {
    forall|j1: int, j2: int|
        0 <= j1 < j2 < es.len() ==> (#[trigger] es[j1]).key() != (#[trigger] es[j2]).key()
}

/// What one successful mutation does to the log. The serialized entry is
/// appended as a fresh segment under the next free id, the write of that
/// segment file is recorded, and the mutation count steps. When the count
/// stays within [`COMPACTION_MINIMUM`], nothing else changes: the log
/// grows by exactly that one segment and the record by that one write.
/// When this mutation pushes the count past the threshold, the same call
/// compacts the log — the count resets, the log afterwards holds at most
/// one segment per key (still ending in the fresh segment), and beyond the
/// write only file deletions are recorded.
pub open spec fn appended_entry(pre: KvStore, post: KvStore, e: EntryModel) -> bool {
    let seg = (pre.next_segment_id(), spec_encode(e));
    let compacting = pre.mutations_since_compaction() + 1 > COMPACTION_MINIMUM;
    &&& post.next_segment_id() == pre.next_segment_id() + 1
    &&& post.disk().len() > 0
    &&& post.disk().last() == seg
    &&& post.mutations_since_compaction() == (if compacting {
        0 as u64
    } else {
        (pre.mutations_since_compaction() + 1) as u64
    })
    &&& (!compacting ==> post.disk() == pre.disk().push(seg) && post.pending_ops_view().len()
        == pre.pending_ops_view().len() + 1)
    &&& (compacting ==> distinct_keys(post.entries()))
    &&& post.pending_ops_view().len() > pre.pending_ops_view().len()
    &&& post.pending_ops_view().take(pre.pending_ops_view().len() as int)
        == pre.pending_ops_view()
    &&& (post.pending_ops_view()[pre.pending_ops_view().len() as int] matches DiskOp::WriteFile {
        name,
        content,
    } && name@ == spec_segment_file_name(pre.next_segment_id() as nat) && content@ == spec_encode(
        e,
    ))
    &&& (forall|j: int|
        pre.pending_ops_view().len() < j < post.pending_ops_view().len() ==> (
        #[trigger] post.pending_ops_view()[j]) is RemoveFile)
}

/// One segment resolves an index position for `key`: it is the segment the
/// position names, the position spans exactly the segment's text, and that
/// text is the serialized form of a write of `key` carrying `value`.
pub open spec fn position_resolves(
    seg: (u64, Seq<char>),
    p: Position,
    key: Seq<char>,
    value: Seq<char>,
) -> bool {
    &&& seg.0 == p.file_index
    &&& p.start_position == 0
    &&& p.length as int == seg.1.len() as int
    &&& spec_decode(seg.1) == Some(EntryModel::Put { key, value })
}

/// All file names parse as segment ids below the last (reserved) id, and no
/// two files carry the same id.
pub open spec fn files_ok(files: Seq<SegmentFile>) -> bool {
    &&& forall|i: int|
        0 <= i < files.len() ==> {
            &&& (#[trigger] spec_parse_segment_id(files[i].name@)) is Some
            &&& spec_parse_segment_id(files[i].name@).unwrap() < u64::MAX
        }
    &&& forall|i: int, j: int|
        0 <= i < j < files.len() ==> spec_parse_segment_id((#[trigger] files[i]).name@)
            != spec_parse_segment_id((#[trigger] files[j]).name@)
}

/// Every file's text decodes as exactly one entry.
pub open spec fn files_decodable(files: Seq<SegmentFile>) -> bool {
    forall|i: int| 0 <= i < files.len() ==> (#[trigger] spec_decode(files[i].content@)) is Some
}

/// The id-to-text map the given directory files describe.
pub open spec fn files_map(files: Seq<SegmentFile>) -> Map<u64, Seq<char>>
    decreases files.len(),
{
    if files.len() == 0 {
        Map::empty()
    } else {
        files_map(files.drop_last()).insert(
            spec_parse_segment_id(files.last().name@).unwrap() as u64,
            files.last().content@,
        )
    }
}

/// The largest segment id among the given directory files (zero when there
/// are none); meaningful when every name parses.
pub open spec fn max_file_id(files: Seq<SegmentFile>) -> nat
    decreases files.len(),
{
    if files.len() == 0 {
        0
    } else {
        let rest = max_file_id(files.drop_last());
        let last = spec_parse_segment_id(files.last().name@).unwrap();
        if last >= rest {
            last
        } else {
            rest
        }
    }
}

/// `files_map` knows exactly the parsed ids of the files.
proof fn lemma_files_map_domain(files: Seq<SegmentFile>, id: u64)
    requires
        forall|i: int| 0 <= i < files.len() ==> (#[trigger] spec_parse_segment_id(files[i].name@)) is Some,
    ensures
        files_map(files).contains_key(id) <==> exists|j: int|
            0 <= j < files.len() && spec_parse_segment_id((#[trigger] files[j]).name@) == Some(
                id as nat,
            ),
    decreases files.len(),
{
    if files.len() > 0 {
        let front = files.drop_last();
        assert forall|i: int| 0 <= i < front.len() implies (#[trigger] spec_parse_segment_id(
            front[i].name@,
        )) is Some by {
            assert(front[i] == files[i]);
        }
        lemma_files_map_domain(front, id);
        let last_id = spec_parse_segment_id(files.last().name@).unwrap() as u64;
        if last_id == id {
            assert(spec_parse_segment_id(files[files.len() - 1].name@) == Some(id as nat));
        }
        if files_map(files).contains_key(id) && last_id != id {
            let j = choose|j: int|
                0 <= j < front.len() && spec_parse_segment_id((#[trigger] front[j]).name@) == Some(
                    id as nat,
                );
            assert(files[j] == front[j]);
        }
        if exists|j: int|
            0 <= j < files.len() && spec_parse_segment_id((#[trigger] files[j]).name@) == Some(
                id as nat,
            ) {
            let j = choose|j: int|
                0 <= j < files.len() && spec_parse_segment_id((#[trigger] files[j]).name@) == Some(
                    id as nat,
                );
            if j < files.len() - 1 {
                assert(front[j] == files[j]);
                assert(files_map(front).contains_key(id));
            } else {
                assert(spec_parse_segment_id(files.last().name@).unwrap() == id as nat);
                assert(last_id == id);
            }
        }
    }
}

/// This struct serves as the main interface for storing and retrieving
/// data from the store. It uses a log-based file structure to store values
/// (mirrored in memory, with the file operations recorded for the embedding
/// program to apply) and a log-pointer index mapping each live key to the
/// position of its latest write.
pub struct KvStore {
    store: StringHashMap<Position>,
    reader_map: Vec<(u64, BufReaderWithPosition)>,
    writer: BufWriterWithPosition,
    compaction_counter: u64,
    pending_ops: Vec<DiskOp>,
    on_disk: Ghost<Map<Seq<char>, Seq<char>>>,
}

impl KvStore {
    /// The mirrored segment files, ascending by id.
    pub closed spec fn disk(self) -> Seq<(u64, Seq<char>)> {
        disk_of(self.reader_map@)
    }

    /// The segment files as a map from id to text.
    pub closed spec fn disk_map(self) -> Map<u64, Seq<char>> {
        seg_map(self.disk())
    }

    /// The log's entries, oldest segment first.
    pub closed spec fn entries(self) -> Seq<EntryModel> {
        entries_of(self.disk())
    }

    /// The key-value mapping the store represents: the replay of its log.
    /// This is what `get`, `set` and `remove` observe and change.
    pub closed spec fn map_view(self) -> Map<Seq<char>, Seq<char>> {
        replay(self.entries())
    }

    /// Whether a fresh segment id is still free; when this fails, mutations
    /// report an I/O error rather than reuse an id (the last id is reserved
    /// to mark the exhausted id space).
    pub open spec fn can_append(self) -> bool {
        self.next_segment_id() < u64::MAX
    }

    /// The recorded file operations not yet drained.
    pub closed spec fn pending_ops_view(self) -> Seq<DiskOp> {
        self.pending_ops@
    }

    /// The id of the segment the next mutation will create.
    pub closed spec fn next_segment_id(self) -> u64 {
        self.writer.spec_next_index()
    }

    /// How many mutations have succeeded since the last compaction (or
    /// since the store was opened). Once a mutation pushes this count past
    /// [`COMPACTION_MINIMUM`], that same call compacts the log and resets
    /// the count to zero.
    pub closed spec fn mutations_since_compaction(self) -> u64 {
        self.compaction_counter
    }

    /// What the store directory holds once the drained operations have been
    /// applied to it.
    pub closed spec fn on_disk_view(self) -> Map<Seq<char>, Seq<char>> {
        self.on_disk@
    }

    /// The segments are sorted ascending, every text is the serialized form
    /// of one entry, and all ids stay below the writer's next id.
    pub closed spec fn segments_wf(self) -> bool {
        &&& segs_sorted(self.disk())
        &&& forall|i: int|
            0 <= i < self.disk().len() ==> (#[trigger] spec_decode(self.disk()[i].1)) is Some
        &&& forall|i: int|
            0 <= i < self.disk().len() ==> (#[trigger] self.disk()[i]).0
                < self.writer.spec_next_index()
    }

    /// The index holds exactly the live keys, each pointing at a segment
    /// that stores its latest value; no later segment mentions the key.
    pub closed spec fn index_wf(self) -> bool {
        &&& self.store@.dom() == self.map_view().dom()
        &&& forall|k: Seq<char>|
            #[trigger] self.store@.contains_key(k) ==> exists|i: int|
                0 <= i < self.disk().len() && position_resolves(
                    #[trigger] self.disk()[i],
                    self.store@[k],
                    k,
                    self.map_view()[k],
                )
        &&& forall|k: Seq<char>, i: int|
            #![trigger self.store@[k], entry_of(self.disk()[i])]
            self.store@.contains_key(k) && 0 <= i < self.disk().len() && entry_of(
                self.disk()[i],
            ).key() == k ==> self.disk()[i].0 <= self.store@[k].file_index
    }

    /// Applying the recorded operations to the directory as last drained
    /// yields exactly the mirrored segment files.
    pub closed spec fn ops_wf(self) -> bool {
        apply_disk_ops(self.on_disk@, self.pending_ops@) == seg_files_by_name(self.disk())
    }

    /// Everything the store's operations preserve, except the compaction
    /// counter's bound, which compaction itself restores.
    pub closed spec fn wf_core(self) -> bool {
        &&& self.segments_wf()
        &&& self.index_wf()
        &&& self.ops_wf()
    }

    /// The store's well-formedness invariant.
    pub closed spec fn wf(self) -> bool {
        &&& self.wf_core()
        &&& self.compaction_counter <= COMPACTION_MINIMUM
    }
}

/// Under distinct ids, `files_map` sends each file's id to its own text.
proof fn lemma_files_map_entry(files: Seq<SegmentFile>, j: int)
    requires
        files_ok(files),
        0 <= j < files.len(),
    ensures
        files_map(files).contains_key(spec_parse_segment_id(files[j].name@).unwrap() as u64),
        files_map(files)[spec_parse_segment_id(files[j].name@).unwrap() as u64] == files[j].content@,
    decreases files.len(),
{
    let front = files.drop_last();
    if j == files.len() - 1 {
    } else {
        assert(files_ok(front)) by {
            assert forall|i: int| 0 <= i < front.len() implies {
                &&& (#[trigger] spec_parse_segment_id(front[i].name@)) is Some
                &&& spec_parse_segment_id(front[i].name@).unwrap() < u64::MAX
            } by {
                assert(front[i] == files[i]);
            }
            assert forall|a: int, b: int| 0 <= a < b < front.len() implies spec_parse_segment_id(
                (#[trigger] front[a]).name@,
            ) != spec_parse_segment_id((#[trigger] front[b]).name@) by {
                assert(front[a] == files[a] && front[b] == files[b]);
            }
        }
        assert(front[j] == files[j]);
        lemma_files_map_entry(front, j);
        // the last file's id differs from file j's id
        assert(spec_parse_segment_id(files[j].name@) != spec_parse_segment_id(
            files[files.len() - 1].name@,
        ));
    }
}

impl KvStore {
    /// Initializes a store from the segment files found in the store
    /// directory: replays them ascending by id into a fresh index (a write
    /// upserts its key, a removal deletes it, the last entry per key wins)
    /// and computes the next free segment id.
    ///
    /// Succeeds if and only if every file name is a segment id carried by
    /// no other file and every text is the serialized form of one entry;
    /// a foreign name or a duplicate id is a [`ErrorKind::PathFormat`]
    /// error, a malformed text a [`ErrorKind::Serialization`] error.
    #[verifier::rlimit(80)]
    pub fn open(files: Vec<SegmentFile>) -> (r: Result<KvStore, KvsError>)
        ensures
            r is Ok <==> files_ok(files@) && files_decodable(files@),
            r matches Ok(s) ==> s.wf() && s.disk_map() == files_map(files@)
                && s.disk().len() == files@.len() && s.pending_ops_view() == Seq::<DiskOp>::empty()
                && s.mutations_since_compaction() == 0 && (files@.len() == 0
                ==> s.map_view() == Map::<Seq<char>, Seq<char>>::empty() && s.next_segment_id()
                == 0) && (files@.len() > 0 ==> s.next_segment_id() as nat == max_file_id(files@)
                + 1) && (s.can_append() <==> !files_map(files@).contains_key((u64::MAX - 1) as u64)),
            r matches Err(e) ==> (e.kind == ErrorKind::PathFormat && !files_ok(files@)) || (e.kind
                == ErrorKind::Serialization && files_ok(files@) && !files_decodable(files@)),
    {
        let files_len = files.len();
        let mut reader_map: Vec<(u64, BufReaderWithPosition)> = Vec::new();
        let mut idx: usize = 0;
        while idx < files_len
            invariant
                files_len == files@.len(),
                idx <= files_len,
                segs_sorted(disk_of(reader_map@)),
                disk_of(reader_map@).len() == idx as int,
                seg_map(disk_of(reader_map@)) == files_map(files@.take(idx as int)),
                forall|m: int|
                    0 <= m < idx ==> (#[trigger] disk_of(reader_map@)[m]).0 < u64::MAX,
                forall|j: int|
                    0 <= j < idx ==> (#[trigger] spec_parse_segment_id(files@[j].name@)) is Some
                        && spec_parse_segment_id(files@[j].name@).unwrap() < u64::MAX,
                forall|i: int, j: int|
                    0 <= i < j < idx ==> spec_parse_segment_id((#[trigger] files@[i]).name@)
                        != spec_parse_segment_id((#[trigger] files@[j]).name@),
                idx > 0 ==> disk_of(reader_map@).len() > 0 && disk_of(
                    reader_map@,
                ).last().0 as nat == max_file_id(files@.take(idx as int)),
            decreases files_len - idx,
        {
            let ghost d0 = disk_of(reader_map@);
            let id = match files[idx].name.parse_number_from_path() {
                Ok(v) => v,
                Err(e) => {
                    return Err(e);
                },
            };
            if id == u64::MAX {
                return Err(
                    KvsError::new(
                        ErrorKind::PathFormat,
                        "Segment id space is exhausted.".to_owned(),
                    ),
                );
            }
            let reader = match BufReaderWithPosition::new(files[idx].content.clone()) {
                Ok(b) => b,
                Err(e) => {
                    return Err(e);
                },
            };
            // find the insertion point, scanning from the right
            let mut pos: usize = reader_map.len();
            while pos > 0 && reader_map[pos - 1].0 > id
                invariant
                    pos <= reader_map@.len(),
                    forall|m: int|
                        pos <= m < disk_of(reader_map@).len() ==> (#[trigger] disk_of(
                            reader_map@,
                        )[m]).0 > id,
                decreases pos,
            {
                proof {
                    assert(disk_of(reader_map@)[pos - 1].0 == reader_map@[pos - 1].0);
                }
                pos = pos - 1;
            }
            if pos > 0 {
                proof {
                    assert(disk_of(reader_map@)[pos - 1].0 == reader_map@[pos - 1].0);
                }
                if reader_map[pos - 1].0 == id {
                    proof {
                        lemma_seg_map_of_sorted(d0, pos - 1);
                        lemma_files_map_domain(files@.take(idx as int), id);
                        let j = choose|j: int|
                            0 <= j < idx && spec_parse_segment_id(
                                (#[trigger] files@.take(idx as int)[j]).name@,
                            ) == Some(id as nat);
                        assert(files@.take(idx as int)[j] == files@[j]);
                        assert(spec_parse_segment_id(files@[idx as int].name@) == Some(id as nat));
                    }
                    return Err(
                        KvsError::new(
                            ErrorKind::PathFormat,
                            "Duplicate segment id in the store directory.".to_owned(),
                        ),
                    );
                }
            }
            let ghost rm0 = reader_map@;
            let ghost el = (id, reader);
            let ghost seg = (id, reader@);
            reader_map.insert(pos, (id, reader));
            proof {
                rm0.insert_ensures(pos as int, el);
                let d1 = disk_of(reader_map@);
                d0.insert_ensures(pos as int, seg);
                assert(d1 =~= d0.insert(pos as int, seg)) by {
                    assert forall|m: int| 0 <= m < d1.len() implies d1[m] == d0.insert(
                        pos as int,
                        seg,
                    )[m] by {
                        if m < pos {
                            assert(reader_map@[m] == rm0[m]);
                            assert(d0[m] == (rm0[m].0, rm0[m].1@));
                        } else if m == pos {
                            assert(reader_map@[m] == el);
                        } else {
                            assert(reader_map@[m] == rm0[m - 1]);
                            assert(d0[m - 1] == (rm0[m - 1].0, rm0[m - 1].1@));
                        }
                    }
                }
                // every old id differs from the new one
                assert forall|m: int| 0 <= m < d0.len() implies (#[trigger] d0[m]).0 != id by {
                    if m < pos {
                        if pos <= d0.len() && m < pos - 1 {
                            assert(d0[m].0 < d0[pos - 1].0);
                        }
                        assert(d0[pos - 1].0 < id);
                    }
                }
                // sortedness of the grown sequence
                assert forall|i: int, j: int| 0 <= i < j < d1.len() implies (#[trigger] d1[i]).0
                    < (#[trigger] d1[j]).0 by {
                    if i < pos {
                        assert(d1[i] == d0[i]);
                    } else if i == pos {
                        assert(d1[i] == seg);
                    } else {
                        assert(d1[i] == d0[i - 1]);
                    }
                    if j < pos {
                        assert(d1[j] == d0[j]);
                    } else if j == pos {
                        assert(d1[j] == seg);
                    } else {
                        assert(d1[j] == d0[j - 1]);
                    }
                }
                // the id-to-text map gains exactly the new segment
                lemma_seg_map_insert(d0, pos as int, seg);
                assert(files@.take(idx + 1).drop_last() =~= files@.take(idx as int));
                assert(files@.take(idx + 1).last() == files@[idx as int]);
                assert(seg_map(d1) == files_map(files@.take(idx + 1)));
                // the largest id stays at the end of the mirror
                let grown = d0.insert(pos as int, seg);
                assert(d1.len() == d0.len() + 1);
                assert(d1[d1.len() - 1] == grown[d0.len() as int]);
                assert(max_file_id(files@.take(idx + 1)) == (if id as nat >= max_file_id(
                    files@.take(idx as int),
                ) {
                    id as nat
                } else {
                    max_file_id(files@.take(idx as int))
                }));
                if idx > 0 {
                    assert(d0[d0.len() - 1] == d0.last());
                    assert(d0.last().0 as nat == max_file_id(files@.take(idx as int)));
                }
                if pos as int == d0.len() {
                    assert(grown[d0.len() as int] == seg);
                    if idx > 0 {
                        assert(d0[d0.len() - 1].0 < id);
                    }
                } else {
                    assert(grown[d0.len() as int] == d0[d0.len() - 1]);
                    assert(d0[d0.len() - 1].0 > id);
                }
                assert(d1[d1.len() - 1].0 as nat == max_file_id(files@.take(idx + 1)));
                // the new file's id collides with no earlier file's id
                assert forall|i: int| 0 <= i < idx implies spec_parse_segment_id(
                    (#[trigger] files@[i]).name@,
                ) != spec_parse_segment_id(files@[idx as int].name@) by {
                    if spec_parse_segment_id(files@[i].name@) == spec_parse_segment_id(
                        files@[idx as int].name@,
                    ) {
                        lemma_files_map_domain(files@.take(idx as int), id);
                        assert(files@.take(idx as int)[i] == files@[i]);
                        assert(files_map(files@.take(idx as int)).contains_key(id));
                        lemma_seg_map_domain(d0, id);
                        let m = choose|m: int| 0 <= m < d0.len() && (#[trigger] d0[m]).0 == id;
                        assert(false);
                    }
                }
            }
            idx = idx + 1;
        }
        proof {
            assert(files@.take(files_len as int) =~= files@);
            assert(files_ok(files@));
        }
        // replay the log ascending to rebuild the index
        let ghost d = disk_of(reader_map@);
        let mut store: StringHashMap<Position> = StringHashMap::new();
        let mut m: usize = 0;
        while m < reader_map.len()
            invariant
                m <= reader_map@.len(),
                d == disk_of(reader_map@),
                segs_sorted(d),
                seg_map(d) == files_map(files@),
                d.len() == files@.len(),
                files_ok(files@),
                forall|i: int| 0 <= i < d.len() ==> (#[trigger] d[i]).0 < u64::MAX,
                forall|i: int| 0 <= i < m ==> (#[trigger] spec_decode(d[i].1)) is Some,
                store@.dom() == replay(entries_of(d).take(m as int)).dom(),
                forall|k: Seq<char>|
                    #[trigger] store@.contains_key(k) ==> exists|i: int|
                        0 <= i < m && position_resolves(
                            #[trigger] d[i],
                            store@[k],
                            k,
                            replay(entries_of(d).take(m as int))[k],
                        ),
                forall|k: Seq<char>, i: int|
                    #![trigger store@[k], entry_of(d[i])]
                    store@.contains_key(k) && 0 <= i < m && entry_of(d[i]).key() == k ==> d[i].0
                        <= store@[k].file_index,
            decreases reader_map@.len() - m,
        {
            let seg_id = reader_map[m].0;
            let text = reader_map[m].1.contents();
            let length = text.unicode_len() as u64;
            let entry = match decode(text) {
                Ok(entry) => entry,
                Err(e) => {
                    proof {
                        // this segment's text is some input file's text
                        lemma_seg_map_of_sorted(d, m as int);
                        lemma_files_map_domain(files@, d[m as int].0);
                        let j = choose|j: int|
                            0 <= j < files@.len() && spec_parse_segment_id(
                                (#[trigger] files@[j]).name@,
                            ) == Some(d[m as int].0 as nat);
                        lemma_files_map_entry(files@, j);
                        assert(files@[j].content@ == d[m as int].1);
                        assert(!files_decodable(files@));
                    }
                    return Err(e);
                },
            };
            let position = Position { file_index: seg_id, start_position: 0, length };
            let ghost pre = replay(entries_of(d).take(m as int));
            let ghost post = replay(entries_of(d).take(m as int + 1));
            proof {
                assert(entries_of(d).take(m as int + 1).drop_last() =~= entries_of(d).take(
                    m as int,
                ));
                assert(entries_of(d)[m as int] == entry_of(d[m as int]));
                assert(post == apply_entry(pre, entry_of(d[m as int])));
                assert(entry@ == entry_of(d[m as int]));
            }
            match entry {
                Entry::Put(key, _) => {
                    store.insert(key, position);
                },
                Entry::Rm(key) => {
                    store.remove(key.as_str());
                },
            }
            proof {
                assert(store@.dom() =~= post.dom());
                assert forall|k: Seq<char>| #[trigger] store@.contains_key(k) implies exists|
                    i: int,
                |
                    0 <= i < m + 1 && position_resolves(
                        #[trigger] d[i],
                        store@[k],
                        k,
                        post[k],
                    ) by {
                    if entry_of(d[m as int]) matches EntryModel::Put { key, value } && k == key {
                        assert(position_resolves(d[m as int], store@[k], k, post[k]));
                    } else {
                        let i = choose|i: int|
                            0 <= i < m && position_resolves(#[trigger] d[i], store@[k], k, pre[k]);
                        assert(position_resolves(d[i], store@[k], k, post[k]));
                    }
                }
                assert forall|k: Seq<char>, i: int|
                    #![trigger store@[k], entry_of(d[i])]
                    store@.contains_key(k) && 0 <= i < m + 1 && entry_of(d[i]).key() == k
                    implies d[i].0 <= store@[k].file_index by {
                    if i == m as int {
                        // the replayed entry names k: a write points the
                        // index at this very segment, and after a removal
                        // the key is no longer in the index at all
                        if entry_of(d[m as int]) matches EntryModel::Rm { key } {
                            assert(!store@.contains_key(k));
                        }
                    }
                }
            }
            m = m + 1;
        }
        // the next free segment id
        let next_index: u64 = if reader_map.len() == 0 {
            0
        } else {
            reader_map[reader_map.len() - 1].0 + 1
        };
        let writer = BufWriterWithPosition::new(next_index);
        let ghost base = seg_files_by_name(d);
        let result = KvStore {
            store,
            reader_map,
            writer,
            compaction_counter: 0,
            pending_ops: Vec::new(),
            on_disk: Ghost(base),
        };
        proof {
            // the next id is free exactly when the one below the reserved
            // last id is not already taken
            let reserved = (u64::MAX - 1) as u64;
            lemma_seg_map_domain(d, reserved);
            if d.len() > 0 {
                assert(d[d.len() - 1].0 == d.last().0);
                if seg_map(d).contains_key(reserved) {
                    let m = choose|m: int| 0 <= m < d.len() && (#[trigger] d[m]).0 == reserved;
                    if m < d.len() - 1 {
                        assert(d[m].0 < d[d.len() - 1].0);
                        assert(d[d.len() - 1].0 < u64::MAX);
                        assert(false);
                    }
                } else {
                    assert(d[d.len() - 1].0 != reserved);
                    assert(d[d.len() - 1].0 < u64::MAX);
                }
            }
            assert(entries_of(d).take(d.len() as int) =~= entries_of(d));
            assert(result.disk() == d);
            // for a nonempty directory, the next id is the largest plus one
            if files@.len() > 0 {
                assert(d[d.len() - 1] == d.last());
                assert(d.last().0 as nat == max_file_id(files@));
            }
            assert forall|i: int| 0 <= i < d.len() implies (#[trigger] d[i]).0 < next_index by {
                if i < d.len() - 1 {
                    assert(d[i].0 < d[d.len() - 1].0);
                }
            }
            // every input file's text stands decodable in the mirror
            assert forall|i: int| 0 <= i < files@.len() implies (#[trigger] spec_decode(
                files@[i].content@,
            )) is Some by {
                lemma_files_map_entry(files@, i);
                let id = spec_parse_segment_id(files@[i].name@).unwrap() as u64;
                lemma_seg_map_domain(d, id);
                let n = choose|n: int| 0 <= n < d.len() && (#[trigger] d[n]).0 == id;
                lemma_seg_map_of_sorted(d, n);
                assert(d[n].1 == files@[i].content@);
            }
            assert(result.wf());
        }
        Ok(result)
    }

    /// Resolves a recorded position: seeks the segment's cached reader to
    /// the entry's start, reads exactly its characters, and decodes them.
    ///
    /// The index never references a segment the cache does not hold; were
    /// it to, the [`ErrorKind::SegmentMissing`] arm below would report the
    /// broken invariant rather than mask it as an ordinary I/O failure.
    fn read_index(&mut self, index: Position) -> (r: Result<Entry, KvsError>)
        requires
            old(self).wf_core(),
            exists|i: int|
                0 <= i < old(self).disk().len() && (#[trigger] old(self).disk()[i]).0
                    == index.file_index && index.start_position == 0 && index.length as int
                    == old(self).disk()[i].1.len(),
        ensures
            final(self).disk() == old(self).disk(),
            final(self).store@ == old(self).store@,
            final(self).writer == old(self).writer,
            final(self).compaction_counter == old(self).compaction_counter,
            final(self).pending_ops@ == old(self).pending_ops@,
            final(self).on_disk@ == old(self).on_disk@,
            r matches Ok(entry) && (forall|i: int|
                0 <= i < old(self).disk().len() && (#[trigger] old(self).disk()[i]).0
                    == index.file_index ==> entry@ == entry_of(old(self).disk()[i])),
    {
        let ghost d = self.disk();
        let mut idx: usize = 0;
        while idx < self.reader_map.len()
            invariant
                *self == *old(self),
                d == disk_of(self.reader_map@),
                old(self).wf_core(),
                idx <= self.reader_map@.len(),
                forall|m: int| 0 <= m < idx ==> (#[trigger] d[m]).0 != index.file_index,
                exists|i: int|
                    0 <= i < d.len() && (#[trigger] d[i]).0 == index.file_index
                        && index.start_position == 0 && index.length as int == d[i].1.len(),
            decreases self.reader_map@.len() - idx,
        {
            proof {
                assert(d[idx as int].0 == self.reader_map@[idx as int].0);
            }
            if self.reader_map[idx].0 == index.file_index {
                proof {
                    // the segment with this id is unique, so it is this one
                    assert forall|i: int|
                        0 <= i < d.len() && (#[trigger] d[i]).0 == index.file_index
                        implies i == idx as int by {
                        if i < idx as int {
                            assert(d[i].0 < d[idx as int].0);
                        } else if i > idx as int {
                            assert(d[idx as int].0 < d[i].0);
                        }
                    }
                }
                let mut seg = self.reader_map.remove(idx);
                let seek_result = seg.1.seek(index.start_position);
                let read_result = seg.1.read(index.length);
                self.reader_map.insert(idx, seg);
                proof {
                    assert(disk_of(self.reader_map@) =~= d) by {
                        assert forall|m: int| 0 <= m < d.len() implies disk_of(self.reader_map@)[m]
                            == d[m] by {
                            if m < idx as int {
                                assert(self.reader_map@[m] == old(self).reader_map@[m]);
                            } else if m == idx as int {
                                assert(self.reader_map@[m].0 == old(self).reader_map@[m].0);
                                assert(self.reader_map@[m].1@ == old(self).reader_map@[m].1@);
                            } else {
                                assert(self.reader_map@[m] == old(self).reader_map@[m]);
                            }
                        }
                    }
                }
                match seek_result {
                    Ok(_) => {},
                    Err(e) => {
                        return Err(e);
                    },
                }
                let text = match read_result {
                    Ok(t) => t,
                    Err(e) => {
                        return Err(e);
                    },
                };
                proof {
                    assert(text@ =~= d[idx as int].1);
                }
                match decode(text.as_str()) {
                    Ok(entry) => {
                        return Ok(entry);
                    },
                    Err(e) => {
                        return Err(e);
                    },
                }
            }
            idx = idx + 1;
        }
        proof {
            let i = choose|i: int|
                0 <= i < d.len() && (#[trigger] d[i]).0 == index.file_index
                    && index.start_position == 0 && index.length as int == d[i].1.len();
            assert(false);
        }
        Err(KvsError::new(ErrorKind::SegmentMissing, "No file exists at the given index.".to_owned()))
    }

    /// Retrieves the value last written to `key`, or `None` when the key
    /// is absent (absence is a normal outcome, not a failure).
    pub fn get(&mut self, key: String) -> (r: Result<Option<String>, KvsError>)
        requires
            old(self).wf(),
        ensures
            final(self).wf(),
            final(self).map_view() == old(self).map_view(),
            final(self).disk() == old(self).disk(),
            final(self).pending_ops_view() == old(self).pending_ops_view(),
            final(self).on_disk_view() == old(self).on_disk_view(),
            final(self).next_segment_id() == old(self).next_segment_id(),
            final(self).mutations_since_compaction() == old(self).mutations_since_compaction(),
            r is Ok,
            old(self).map_view().contains_key(key@) ==> (r matches Ok(v) && v matches Some(s) && s@
                == old(self).map_view()[key@]),
            !old(self).map_view().contains_key(key@) ==> (r matches Ok(v) && v is None),
    {
        let index = self.store.get(key.as_str());
        if let Some(position) = index {
            let cloned_position = *position;
            proof {
                let i = choose|i: int|
                    0 <= i < self.disk().len() && position_resolves(
                        #[trigger] self.disk()[i],
                        self.store@[key@],
                        key@,
                        self.map_view()[key@],
                    );
                assert(self.disk()[i].0 == cloned_position.file_index);
            }
            match self.read_index(cloned_position) {
                Ok(Entry::Rm(..)) => Ok(None),
                Ok(Entry::Put(_, value)) => {
                    proof {
                        let i = choose|i: int|
                            0 <= i < old(self).disk().len() && position_resolves(
                                #[trigger] old(self).disk()[i],
                                old(self).store@[key@],
                                key@,
                                old(self).map_view()[key@],
                            );
                        assert(entry_of(old(self).disk()[i]) == (EntryModel::Put {
                            key: key@,
                            value: old(self).map_view()[key@],
                        }));
                    }
                    Ok(Some(value))
                },
                Err(error) => Err(error),
            }
        } else {
            Ok(None)
        }
    }

    /// Sets a new value for the given key in the store: appends a write
    /// entry to the log and points the index at it.
    ///
    /// Fails (with an [`ErrorKind::Io`] error, leaving the store unchanged)
    /// only when the segment id space is exhausted.
    pub fn set(&mut self, key: String, value: String) -> (r: Result<(), KvsError>)
        requires
            old(self).wf(),
        ensures
            final(self).wf(),
            old(self).can_append() ==> r is Ok && final(self).map_view() == old(self).map_view().insert(key@, value@)
                && appended_entry(
                *old(self),
                *final(self),
                (EntryModel::Put { key: key@, value: value@ }),
            ),
            !old(self).can_append() ==> (r matches Err(e) && e.kind == ErrorKind::Io && *final(self)
                == *old(self)),
    {
        if self.writer.next_index() == u64::MAX {
            return Err(KvsError::new(ErrorKind::Io, "Segment id space is exhausted.".to_owned()));
        }
        let new_entry = Entry::set(key, value);
        self.append_entry(new_entry)
    }

    /// Removes the given key from the store: a remove on an absent key is a
    /// user error reported as [`ErrorKind::KeyNotFound`]; on a present key
    /// a removal entry is appended to the log and the key leaves the index.
    ///
    /// An [`ErrorKind::Io`] error is possible only when the segment id
    /// space is exhausted.
    pub fn remove(&mut self, key: String) -> (r: Result<(), KvsError>)
        requires
            old(self).wf(),
        ensures
            final(self).wf(),
            !old(self).map_view().contains_key(key@) ==> (r matches Err(e) && e.kind
                == ErrorKind::KeyNotFound && final(self).map_view() == old(self).map_view()
                && final(self).disk() == old(self).disk() && final(self).pending_ops_view() == old(
                self,
            ).pending_ops_view() && final(self).next_segment_id() == old(self).next_segment_id()
                && final(self).mutations_since_compaction() == old(
                self,
            ).mutations_since_compaction()),
            old(self).map_view().contains_key(key@) && old(self).can_append() ==> r is Ok
                && final(self).map_view() == old(self).map_view().remove(key@) && appended_entry(
                *old(self),
                *final(self),
                (EntryModel::Rm { key: key@ }),
            ),
            old(self).map_view().contains_key(key@) && !old(self).can_append() ==> (r matches Err(e)
                && e.kind == ErrorKind::Io && final(self).map_view() == old(self).map_view()
                && final(self).disk() == old(self).disk() && final(self).pending_ops_view() == old(
                self,
            ).pending_ops_view() && final(self).next_segment_id() == old(self).next_segment_id()
                && final(self).mutations_since_compaction() == old(
                self,
            ).mutations_since_compaction()),
    {
        let found = match self.get(key.clone()) {
            Ok(value) => value,
            Err(e) => {
                return Err(e);
            },
        };
        let is_existing_value = found.is_some();
        if !is_existing_value {
            Err(KvsError::new(ErrorKind::KeyNotFound, "Key not found".to_owned()))
        } else {
            if self.writer.next_index() == u64::MAX {
                return Err(
                    KvsError::new(ErrorKind::Io, "Segment id space is exhausted.".to_owned()),
                );
            }
            let entry = Entry::rm(key);
            self.append_entry(entry)
        }
    }

    /// Appends one entry into a fresh segment, mirrors the segment, records
    /// the file write, updates the index, and runs compaction once the
    /// mutation counter passes its threshold.
    fn append_entry(&mut self, new_entry: Entry) -> (r: Result<(), KvsError>)
        requires
            old(self).wf(),
            old(self).can_append(),
        ensures
            final(self).wf(),
            r is Ok,
            final(self).map_view() == apply_entry(old(self).map_view(), new_entry@),
            final(self).next_segment_id() == old(self).next_segment_id() + 1,
            appended_entry(*old(self), *final(self), new_entry@),
    {
        let ghost d0 = self.disk();
        let ghost mv0 = self.map_view();
        let ghost ops0 = self.pending_ops@;
        let ghost ev = new_entry@;
        let (position, content) = self.writer.append_to_log(&new_entry);
        let reader = match BufReaderWithPosition::new(content.clone()) {
            Ok(b) => b,
            Err(e) => {
                return Err(e);
            },
        };
        let name = segment_file_name(position.file_index);
        let ghost seg = (position.file_index, spec_encode(ev));
        self.reader_map.push((position.file_index, reader));
        let write_op = DiskOp::WriteFile { name, content };
        let ghost wop = write_op;
        self.pending_ops.push(write_op);
        proof {
            let d1 = self.disk();
            assert(d1 =~= d0.push(seg)) by {
                assert forall|m: int| 0 <= m < d1.len() implies d1[m] == d0.push(seg)[m] by {
                    if m < d0.len() {
                        assert(self.reader_map@[m] == old(self).reader_map@[m]);
                    }
                }
            }
            crate::codec::lemma_decode_unique(spec_encode(ev), ev);
            // the new segment's entry extends the log
            assert(entries_of(d1) =~= entries_of(d0).push(ev));
            assert(entries_of(d1).drop_last() =~= entries_of(d0));
            assert(self.map_view() == apply_entry(mv0, ev));
            // the recorded write keeps the directory model aligned
            assert(d1.drop_last() =~= d0);
            assert(seg_files_by_name(d1) == seg_files_by_name(d0).insert(
                spec_segment_file_name(seg.0 as nat),
                seg.1,
            ));
            assert(self.pending_ops@.drop_last() =~= old(self).pending_ops@);
            assert(apply_disk_ops(self.on_disk@, self.pending_ops@) == seg_files_by_name(d1));
        }
        match new_entry {
            Entry::Put(key, _) => {
                self.store.insert(key, position);
            },
            Entry::Rm(key) => {
                self.store.remove(key.as_str());
            },
        }
        proof {
            let d1 = self.disk();
            assert(self.store@.dom() =~= self.map_view().dom());
            assert forall|k: Seq<char>| #[trigger] self.store@.contains_key(k) implies exists|
                i: int,
            |
                0 <= i < d1.len() && position_resolves(
                    #[trigger] d1[i],
                    self.store@[k],
                    k,
                    self.map_view()[k],
                ) by {
                if ev matches EntryModel::Put { key, value } && k == key {
                    assert(position_resolves(d1[d1.len() - 1], self.store@[k], k, self.map_view()[k]));
                } else {
                    let i = choose|i: int|
                        0 <= i < d0.len() && position_resolves(
                            #[trigger] d0[i],
                            old(self).store@[k],
                            k,
                            mv0[k],
                        );
                    assert(d1[i] == d0[i]);
                    assert(position_resolves(d1[i], self.store@[k], k, self.map_view()[k]));
                }
            }
            assert forall|k: Seq<char>, i: int|
                #![trigger self.store@[k], entry_of(self.disk()[i])]
                self.store@.contains_key(k) && 0 <= i < self.disk().len() && entry_of(
                    self.disk()[i],
                ).key() == k implies self.disk()[i].0 <= self.store@[k].file_index by {
                if i < d0.len() {
                    assert(self.disk()[i] == d0[i]);
                    if ev matches EntryModel::Put { key, value } && k == key {
                        assert(d0[i].0 < position.file_index);
                    } else {
                        assert(old(self).store@[k] == self.store@[k]);
                    }
                }
            }
            assert(self.segments_wf());
            assert(self.wf_core());
        }
        self.compaction_counter = self.compaction_counter + 1;
        let ghost mid = *self;
        proof {
            assert(mid.pending_ops@ == ops0.push(wop));
            assert(mid.pending_ops@.take(ops0.len() as int) =~= ops0);
            assert(mid.pending_ops@[ops0.len() as int] == wop);
        }
        if self.compaction_counter > COMPACTION_MINIMUM {
            match self.compact_log() {
                Ok(()) => {},
                Err(e) => {
                    return Err(e);
                },
            }
            proof {
                // the fresh segment survives compaction and stays last:
                // nothing newer shadows it, and every survivor's id is at
                // most its id
                let dm = mid.disk();
                assert(dm[dm.len() - 1] == seg);
                assert(!shadowed(dm, dm.len() - 1));
                assert(seg_present(self.disk(), dm[dm.len() - 1]));
                let df = self.disk();
                let m = choose|m: int| 0 <= m < df.len() && df[m] == seg;
                if m < df.len() - 1 {
                    assert(df[m].0 < df[df.len() - 1].0);
                    assert(seg_present(dm, df[df.len() - 1]));
                    let n = choose|n: int| 0 <= n < dm.len() && dm[n] == df[df.len() - 1];
                    if n < dm.len() - 1 {
                        assert(dm[n].0 < dm[dm.len() - 1].0);
                    }
                    assert(false);
                }
                assert(df.last() == seg);
                // the record: the old prefix, the write, then deletions
                assert(self.pending_ops@.take(mid.pending_ops@.len() as int)
                    == mid.pending_ops@);
                assert(self.pending_ops@.take(ops0.len() as int) =~= ops0) by {
                    assert forall|j: int| 0 <= j < ops0.len() implies self.pending_ops@[j]
                        == ops0[j] by {
                        assert(self.pending_ops@.take(mid.pending_ops@.len() as int)[j]
                            == self.pending_ops@[j]);
                        assert(mid.pending_ops@[j] == ops0[j]);
                    }
                }
                assert(self.pending_ops@.take(mid.pending_ops@.len() as int)[ops0.len() as int]
                    == self.pending_ops@[ops0.len() as int]);
                assert(self.pending_ops@[ops0.len() as int] == wop);
                assert(appended_entry(*old(self), *self, ev));
            }
        } else {
            proof {
                assert(appended_entry(*old(self), *self, ev));
            }
        }
        Ok(())
    }

    /// Reclaims the space of overwritten and removed keys: walks the
    /// segments newest first, keeps the first segment seen for each key,
    /// and drops every older segment for a key already seen, recording a
    /// file deletion for each. The cached reader of a dropped segment is
    /// evicted before its deletion is recorded.
    ///
    /// Compaction never changes the store's key-value meaning: the kept
    /// newest entry decides every key either way. Afterwards every
    /// remaining segment carries a distinct key; a terminal removal
    /// tombstone is deliberately retained, so that replay keeps reporting
    /// the key as absent.
    #[verifier::rlimit(100)]
    fn compact_log(&mut self) -> (r: Result<(), KvsError>)
        requires
            old(self).wf_core(),
        ensures
            final(self).wf(),
            r is Ok,
            final(self).map_view() == old(self).map_view(),
            final(self).compaction_counter == 0,
            final(self).next_segment_id() == old(self).next_segment_id(),
            final(self).on_disk_view() == old(self).on_disk_view(),
            distinct_keys(final(self).entries()),
            // only deletions: the index is untouched, every surviving
            // segment is one of the old ones byte for byte, and exactly
            // those segments survive that no newer same-key segment shadows
            final(self).store@ == old(self).store@,
            forall|m: int|
                0 <= m < final(self).disk().len() ==> seg_present(
                    old(self).disk(),
                    #[trigger] final(self).disk()[m],
                ),
            forall|n: int|
                0 <= n < old(self).disk().len() ==> (shadowed(old(self).disk(), n) <==> !seg_present(
                    final(self).disk(),
                    #[trigger] old(self).disk()[n],
                )),
            // the recorded operations grow only by file deletions
            old(self).pending_ops@.len() <= final(self).pending_ops@.len(),
            final(self).pending_ops@.take(old(self).pending_ops@.len() as int) == old(
                self,
            ).pending_ops@,
            forall|j: int|
                old(self).pending_ops@.len() <= j < final(self).pending_ops@.len() ==> (
                #[trigger] final(self).pending_ops@[j]) is RemoveFile,
    {
        let ghost d0 = self.disk();
        let ghost store0 = self.store@;
        let ghost mv0 = self.map_view();
        let ghost w0 = self.writer;
        let ghost od0 = self.on_disk@;
        let ghost c0 = self.compaction_counter;
        let ghost ops0 = self.pending_ops@;
        let mut seen: StringHashMap<bool> = StringHashMap::new();
        let mut i: usize = self.reader_map.len();
        while i > 0
            invariant
                i <= self.reader_map@.len(),
                self.wf_core(),
                self.store@ == store0,
                self.writer == w0,
                self.on_disk@ == od0,
                self.compaction_counter == c0,
                self.map_view() == mv0,
                self.disk().take(i as int) == d0.take(i as int),
                i <= d0.len(),
                segs_sorted(d0),
                ops0.len() <= self.pending_ops@.len(),
                forall|m: int|
                    0 <= m < self.disk().len() ==> seg_present(d0, #[trigger] self.disk()[m]),
                forall|n: int|
                    i <= n < d0.len() && !shadowed(d0, n) ==> seg_present(
                        self.disk(),
                        #[trigger] d0[n],
                    ),
                forall|n: int|
                    i <= n < d0.len() && shadowed(d0, n) ==> !seg_present(
                        self.disk(),
                        #[trigger] d0[n],
                    ),
                forall|n: int|
                    i <= n < d0.len() ==> seen@.contains_key(entry_of(#[trigger] d0[n]).key()),
                self.pending_ops@.take(ops0.len() as int) == ops0,
                forall|j: int|
                    ops0.len() <= j < self.pending_ops@.len() ==> (#[trigger] self.pending_ops@[j]) is RemoveFile,
                forall|k: Seq<char>|
                    #![trigger seen@.contains_key(k)]
                    seen@.contains_key(k) <==> exists|j: int|
                        i <= j < self.disk().len() && (#[trigger] entry_of(self.disk()[j])).key()
                            == k,
                forall|j1: int, j2: int|
                    i <= j1 < j2 < self.disk().len() ==> (#[trigger] entry_of(self.disk()[j1])).key()
                        != (#[trigger] entry_of(self.disk()[j2])).key(),
            decreases i,
        {
            i = i - 1;
            let ghost d1 = self.disk();
            let entry = match decode(self.reader_map[i].1.contents()) {
                Ok(entry) => entry,
                Err(e) => {
                    proof {
                        assert(d1[i as int].1 == self.reader_map@[i as int].1@);
                        assert(false);
                    }
                    return Err(e);
                },
            };
            proof {
                assert(entry@ == entry_of(d1[i as int]));
            }
            let key = entry.get_key();
            if seen.contains_key(key.as_str()) {
                let ghost k = entry@.key();
                let ghost es1 = entries_of(d1);
                let ghost rm1 = self.reader_map@;
                let ghost ops1 = self.pending_ops@;
                let seg = self.reader_map.remove(i);
                let name = segment_file_name(seg.0);
                self.pending_ops.push(DiskOp::RemoveFile { name });
                proof {
                    let d2 = self.disk();
                    rm1.remove_ensures(i as int);
                    d1.remove_ensures(i as int);
                    es1.remove_ensures(i as int);
                    assert(d2 =~= d1.remove(i as int)) by {
                        assert forall|m: int| 0 <= m < d2.len() implies d2[m] == d1.remove(
                            i as int,
                        )[m] by {
                            if m < i as int {
                                assert(self.reader_map@[m] == rm1[m]);
                                assert(d1[m] == (rm1[m].0, rm1[m].1@));
                            } else {
                                assert(self.reader_map@[m] == rm1[m + 1]);
                                assert(d1[m + 1] == (rm1[m + 1].0, rm1[m + 1].1@));
                            }
                        }
                    }
                    assert(entries_of(d2) =~= es1.remove(i as int)) by {
                        assert forall|m: int| 0 <= m < d2.len() implies entries_of(d2)[m]
                            == es1.remove(i as int)[m] by {
                            if m < i as int {
                                assert(entries_of(d2)[m] == entry_of(d2[m]));
                                assert(es1[m] == entry_of(d1[m]));
                            } else {
                                assert(entries_of(d2)[m] == entry_of(d2[m]));
                                assert(es1[m + 1] == entry_of(d1[m + 1]));
                            }
                        }
                    }
                    // a newer segment carries the same key, so dropping this
                    // one cannot change any replayed value
                    assert(seen@.contains_key(k));
                    let j = choose|j: int|
                        i + 1 <= j < d1.len() && (#[trigger] entry_of(d1[j])).key() == k;
                    assert(es1[j] == entry_of(d1[j]) && es1[i as int] == entry_of(d1[i as int]));
                    crate::model::lemma_apply_log_remove_shadowed(
                        Map::<Seq<char>, Seq<char>>::empty(),
                        es1,
                        i as int,
                        j,
                    );
                    assert(self.map_view() == mv0);
                    // the surviving segments stay sorted, decodable, below
                    // the next id
                    assert(segs_sorted(d2)) by {
                        assert forall|m1: int, m2: int| 0 <= m1 < m2 < d2.len() implies (
                        #[trigger] d2[m1]).0 < (#[trigger] d2[m2]).0 by {
                            let n1 = if m1 < i as int { m1 } else { m1 + 1 };
                            let n2 = if m2 < i as int { m2 } else { m2 + 1 };
                            assert(d2[m1] == d1[n1] && d2[m2] == d1[n2]);
                        }
                    }
                    assert forall|m: int| 0 <= m < d2.len() implies (#[trigger] spec_decode(
                        d2[m].1,
                    )) is Some && (#[trigger] d2[m]).0 < self.writer.spec_next_index() by {
                        let n = if m < i as int { m } else { m + 1 };
                        assert(d2[m] == d1[n]);
                        assert(spec_decode(d1[n].1) is Some);
                        assert(d1[n].0 < w0.spec_next_index());
                    }
                    // the index never pointed at the dropped segment: the
                    // newer segment for its key outranks it
                    assert forall|k2: Seq<char>| #[trigger] self.store@.contains_key(k2) implies
                        exists|m: int|
                            0 <= m < d2.len() && position_resolves(
                                #[trigger] d2[m],
                                self.store@[k2],
                                k2,
                                self.map_view()[k2],
                            ) by {
                        let m = choose|m: int|
                            0 <= m < d1.len() && position_resolves(
                                #[trigger] d1[m],
                                store0[k2],
                                k2,
                                mv0[k2],
                            );
                        if m == i as int {
                            assert(entry_of(d1[i as int]).key() == k2);
                            assert(k2 == k);
                            assert(d1[j].0 <= store0[k2].file_index);
                            assert(d1[i as int].0 < d1[j].0);
                            assert(false);
                        } else if m < i as int {
                            assert(d2[m] == d1[m]);
                            assert(position_resolves(d2[m], self.store@[k2], k2, self.map_view()[k2]));
                        } else {
                            assert(d2[m - 1] == d1[m]);
                            assert(position_resolves(
                                d2[m - 1],
                                self.store@[k2],
                                k2,
                                self.map_view()[k2],
                            ));
                        }
                    }
                    assert forall|k2: Seq<char>, m: int|
                        #![trigger self.store@[k2], entry_of(self.disk()[m])]
                        self.store@.contains_key(k2) && 0 <= m < self.disk().len() && entry_of(
                            self.disk()[m],
                        ).key() == k2 implies self.disk()[m].0 <= self.store@[k2].file_index by {
                        let n = if m < i as int { m } else { m + 1 };
                        assert(d2[m] == d1[n]);
                        assert(entry_of(d1[n]).key() == k2);
                    }
                    // what was seen is exactly what the new tail holds
                    assert forall|k2: Seq<char>| #[trigger] seen@.contains_key(k2) implies exists|
                        j2: int,
                    |
                        i <= j2 < d2.len() && (#[trigger] entry_of(d2[j2])).key() == k2 by {
                        let j2 = choose|j2: int|
                            i + 1 <= j2 < d1.len() && (#[trigger] entry_of(d1[j2])).key() == k2;
                        assert(d2[j2 - 1] == d1[j2]);
                        assert(entry_of(d2[j2 - 1]).key() == k2);
                    }
                    assert forall|j2: int|
                        i <= j2 < d2.len() implies seen@.contains_key(
                        (#[trigger] entry_of(d2[j2])).key()) by {
                        assert(d2[j2] == d1[j2 + 1]);
                        assert(entry_of(d1[j2 + 1]).key() == entry_of(d2[j2]).key());
                    }
                    assert forall|j1: int, j2: int| i <= j1 < j2 < d2.len() implies (
                    #[trigger] entry_of(d2[j1])).key() != (#[trigger] entry_of(d2[j2])).key() by {
                        assert(d2[j1] == d1[j1 + 1] && d2[j2] == d1[j2 + 1]);
                    }
                    // the recorded deletion keeps the directory model aligned
                    assert forall|m: int| 0 <= m < d1.len() && m != i as int implies (
                    #[trigger] d1[m]).0 != d1[i as int].0 by {}
                    crate::model::lemma_seg_files_by_name_remove(d1, i as int);
                    assert(seg.0 == rm1[i as int].0);
                    assert(name@ == spec_segment_file_name(d1[i as int].0 as nat));
                    assert(self.pending_ops@.drop_last() =~= ops1);
                    assert(apply_disk_ops(self.on_disk@, self.pending_ops@) == seg_files_by_name(
                        d2,
                    ));
                    assert(self.wf_core());
                    // the recorded operations stay: a prefix plus deletions
                    assert(ops1.take(ops0.len() as int).len() == ops0.len());
                    assert(self.pending_ops@.take(ops0.len() as int) =~= ops0) by {
                        assert forall|m: int| 0 <= m < ops0.len() implies self.pending_ops@[m]
                            == ops0[m] by {
                            assert(self.pending_ops@.drop_last()[m] == ops1[m]);
                            assert(ops1.take(ops0.len() as int)[m] == ops1[m]);
                        }
                    }
                    // the untouched prefix of the mirror
                    assert(d1[i as int] == d0[i as int]) by {
                        assert(d1.take(i as int + 1)[i as int] == d0.take(i as int + 1)[i as int]);
                    }
                    assert(d2.take(i as int) =~= d0.take(i as int)) by {
                        assert forall|m: int| 0 <= m < i as int implies d2[m] == d0[m] by {
                            assert(d1.take(i as int + 1)[m] == d0.take(i as int + 1)[m]);
                        }
                    }
                    // every survivor is one of the old segments
                    assert forall|m: int| 0 <= m < d2.len() implies seg_present(
                        d0,
                        #[trigger] d2[m],
                    ) by {
                        let n = if m < i as int {
                            m
                        } else {
                            m + 1
                        };
                        assert(d2[m] == d1[n]);
                        assert(seg_present(d0, d1[n]));
                    }
                    // the dropped segment is shadowed within the old log too
                    assert(shadowed(d0, i as int)) by {
                        assert(seg_present(d0, d1[j]));
                        let n2 = choose|n2: int| 0 <= n2 < d0.len() && d0[n2] == d1[j];
                        assert(d1[i as int].0 < d1[j].0);
                        if n2 <= i as int {
                            if n2 < i as int {
                                assert(d0[n2].0 < d0[i as int].0);
                            }
                            assert(false);
                        }
                        assert(entry_of(#[trigger] d0[n2]).key() == entry_of(d0[i as int]).key());
                    }
                    // unshadowed old segments keep their survivor
                    assert forall|n: int| i <= n < d0.len() && !shadowed(d0, n) implies seg_present(
                        d2,
                        #[trigger] d0[n],
                    ) by {
                        assert(n != i as int);
                        assert(seg_present(d1, d0[n]));
                        let m1 = choose|m1: int| 0 <= m1 < d1.len() && d1[m1] == d0[n];
                        if m1 == i as int {
                            assert(d0[n] == d0[i as int]);
                            assert(d0[i as int].0 < d0[n].0);
                            assert(false);
                        }
                        let m2 = if m1 < i as int {
                            m1
                        } else {
                            m1 - 1
                        };
                        assert(d2[m2] == d1[m1]);
                    }
                    // shadowed old segments stay deleted, this one included
                    assert forall|n: int| i <= n < d0.len() && shadowed(d0, n) implies !seg_present(
                        d2,
                        #[trigger] d0[n],
                    ) by {
                        if seg_present(d2, d0[n]) {
                            let m = choose|m: int| 0 <= m < d2.len() && d2[m] == d0[n];
                            let n1 = if m < i as int {
                                m
                            } else {
                                m + 1
                            };
                            assert(d1[n1] == d0[n]);
                            if n == i as int {
                                assert(n1 != i as int);
                                assert(d1[n1].0 != d1[i as int].0);
                                assert(false);
                            } else {
                                assert(seg_present(d1, d0[n]));
                                assert(false);
                            }
                        }
                    }
                    // every processed old segment's key has been seen
                    assert forall|n: int| i <= n < d0.len() implies seen@.contains_key(
                        entry_of(#[trigger] d0[n]).key(),
                    ) by {
                        if n == i as int {
                            assert(entry_of(d0[i as int]).key() == k);
                        }
                    }
                }
            } else {
                let ghost seen0 = seen@;
                seen.insert(key.clone(), true);
                proof {
                    let ghost k = entry@.key();
                    assert forall|k2: Seq<char>| #[trigger] seen@.contains_key(k2) implies exists|
                        j2: int,
                    |
                        i <= j2 < d1.len() && (#[trigger] entry_of(d1[j2])).key() == k2 by {
                        if k2 == k {
                            assert(entry_of(d1[i as int]).key() == k2);
                        } else {
                            assert(seen0.contains_key(k2));
                            let j2 = choose|j2: int|
                                i + 1 <= j2 < d1.len() && (#[trigger] entry_of(d1[j2])).key()
                                    == k2;
                            assert(entry_of(d1[j2]).key() == k2);
                        }
                    }
                    assert forall|j1: int, j2: int| i <= j1 < j2 < d1.len() implies (
                    #[trigger] entry_of(d1[j1])).key() != (#[trigger] entry_of(d1[j2])).key() by {
                        if j1 == i as int {
                            if entry_of(d1[j2]).key() == k {
                                assert(seen0.contains_key(k));
                                assert(false);
                            }
                        }
                    }
                    // the untouched prefix of the mirror
                    assert(d1[i as int] == d0[i as int]) by {
                        assert(d1.take(i as int + 1)[i as int] == d0.take(i as int + 1)[i as int]);
                    }
                    assert(d1.take(i as int) =~= d0.take(i as int)) by {
                        assert forall|m: int| 0 <= m < i as int implies d1[m] == d0[m] by {
                            assert(d1.take(i as int + 1)[m] == d0.take(i as int + 1)[m]);
                        }
                    }
                    // the kept segment survives; it is the newest of its key
                    assert forall|n: int| i <= n < d0.len() && !shadowed(d0, n) implies seg_present(
                        d1,
                        #[trigger] d0[n],
                    ) by {
                        if n == i as int {
                            assert(d1[i as int] == d0[n]);
                        }
                    }
                    assert forall|n: int| i <= n < d0.len() && shadowed(d0, n) implies !seg_present(
                        d1,
                        #[trigger] d0[n],
                    ) by {
                        if n == i as int {
                            let n2 = choose|n2: int|
                                n < n2 < d0.len() && entry_of(#[trigger] d0[n2]).key() == entry_of(
                                    d0[n],
                                ).key();
                            assert(seen0.contains_key(entry_of(d0[n2]).key()));
                            assert(entry_of(d0[i as int]).key() == k);
                            assert(false);
                        }
                    }
                    // every processed old segment's key has been seen
                    assert forall|n: int| i <= n < d0.len() implies seen@.contains_key(
                        entry_of(#[trigger] d0[n]).key(),
                    ) by {
                        if n == i as int {
                            assert(entry_of(d0[i as int]).key() == k);
                        } else {
                            assert(seen0.contains_key(entry_of(d0[n]).key()));
                        }
                    }
                }
            }
        }
        self.compaction_counter = 0;
        proof {
            assert(distinct_keys(self.entries())) by {
                assert forall|j1: int, j2: int|
                    0 <= j1 < j2 < self.entries().len() implies (#[trigger] self.entries()[
                    j1]).key() != (#[trigger] self.entries()[j2]).key() by {
                    assert(self.entries()[j1] == entry_of(self.disk()[j1]));
                    assert(self.entries()[j2] == entry_of(self.disk()[j2]));
                }
            }
        }
        Ok(())
    }

    /// Hands out the recorded file operations, oldest first, and forgets
    /// them. Once the caller has applied them, in order, to the store
    /// directory, that directory holds exactly the store's segment files.
    ///
    /// Should applying one of them fail, the caller must reopen the store
    /// from the directory before using it further; a directory holding any
    /// prefix of the operations still recovers to a consistent state.
    pub fn take_pending_ops(&mut self) -> (r: Vec<DiskOp>)
        requires
            old(self).wf(),
        ensures
            final(self).wf(),
            r@ == old(self).pending_ops_view(),
            final(self).pending_ops_view() == Seq::<DiskOp>::empty(),
            final(self).map_view() == old(self).map_view(),
            final(self).disk() == old(self).disk(),
            final(self).next_segment_id() == old(self).next_segment_id(),
            final(self).mutations_since_compaction() == old(self).mutations_since_compaction(),
            apply_disk_ops(old(self).on_disk_view(), r@) == final(self).on_disk_view(),
            final(self).on_disk_view() == seg_files_by_name(final(self).disk()),
    {
        let mut drained: Vec<DiskOp> = Vec::new();
        core::mem::swap(&mut drained, &mut self.pending_ops);
        let ghost applied = seg_files_by_name(self.disk());
        self.on_disk = Ghost(applied);
        drained
    }

    /// The segment files the store directory holds: one per mirrored
    /// segment, ascending by id, each named `<id>.log`. Opening a store
    /// from this listing rebuilds the same key-value mapping.
    pub fn segment_files(&self) -> (r: Vec<SegmentFile>)
        requires
            self.wf(),
        ensures
            r@.len() == self.disk().len(),
            forall|i: int|
                0 <= i < r@.len() ==> (#[trigger] r@[i]).name@ == spec_segment_file_name(
                    self.disk()[i].0 as nat,
                ) && r@[i].content@ == self.disk()[i].1,
            files_ok(r@),
            files_decodable(r@),
            files_map(r@) == self.disk_map(),
    {
        let ghost d = self.disk();
        let mut files: Vec<SegmentFile> = Vec::new();
        let mut i: usize = 0;
        while i < self.reader_map.len()
            invariant
                self.wf(),
                d == self.disk(),
                i <= self.reader_map@.len(),
                files@.len() == i as int,
                forall|m: int|
                    0 <= m < i ==> (#[trigger] files@[m]).name@ == spec_segment_file_name(
                        d[m].0 as nat,
                    ) && files@[m].content@ == d[m].1,
                forall|m: int|
                    0 <= m < i ==> (#[trigger] spec_parse_segment_id(files@[m].name@)) == Some(
                        d[m].0 as nat,
                    ),
                files_map(files@) == seg_map(d.take(i as int)),
            decreases self.reader_map@.len() - i,
        {
            let name = segment_file_name(self.reader_map[i].0);
            let content = self.reader_map[i].1.contents().to_owned();
            proof {
                crate::path::lemma_segment_file_name_round_trip(d[i as int].0 as nat);
                assert(d[i as int].0 < self.writer.spec_next_index());
            }
            let ghost files0 = files@;
            files.push(SegmentFile { name, content });
            proof {
                assert(files@.drop_last() =~= files0);
                assert(d.take(i as int + 1).drop_last() =~= d.take(i as int));
                assert(d.take(i as int + 1).last() == d[i as int]);
            }
            i = i + 1;
        }
        proof {
            assert(d.take(d.len() as int) =~= d);
            assert(files_ok(files@)) by {
                assert forall|a: int, b: int| 0 <= a < b < files@.len() implies
                    spec_parse_segment_id((#[trigger] files@[a]).name@) != spec_parse_segment_id(
                    (#[trigger] files@[b]).name@) by {
                    assert(d[a].0 < d[b].0);
                }
                assert forall|a: int| 0 <= a < files@.len() implies {
                    &&& (#[trigger] spec_parse_segment_id(files@[a].name@)) is Some
                    &&& spec_parse_segment_id(files@[a].name@).unwrap() < u64::MAX
                } by {
                    assert(d[a].0 < self.writer.spec_next_index());
                }
            }
            assert(files_decodable(files@)) by {
                assert forall|a: int| 0 <= a < files@.len() implies (#[trigger] spec_decode(
                    files@[a].content@,
                )) is Some by {
                    assert(spec_decode(d[a].1) is Some);
                }
            }
        }
        files
    }
}

/// The store's model, spelled out for any well-formed store: the segments
/// stand sorted ascending by id, each one's text is the serialized form of
/// the entry it contributes to the log, and the key-value mapping the
/// store represents is the replay of that log, oldest segment first.
pub proof fn lemma_store_model(s: KvStore)
    requires
        s.wf(),
    ensures
        s.map_view() == replay(s.entries()),
        s.entries().len() == s.disk().len(),
        forall|i: int|
            0 <= i < s.disk().len() ==> spec_decode((#[trigger] s.disk()[i]).1) == Some(
                s.entries()[i],
            ),
        segs_sorted(s.disk()),
        s.disk_map() == seg_map(s.disk()),
{
    assert forall|i: int| 0 <= i < s.disk().len() implies spec_decode((#[trigger] s.disk()[i]).1)
        == Some(s.entries()[i]) by {
        assert(s.entries()[i] == entry_of(s.disk()[i]));
        assert(spec_decode(s.disk()[i].1) is Some);
    }
}

/// Once the log holds at most one segment per key — which every mutation
/// that crosses the compaction threshold guarantees, see
/// [`appended_entry`] — each live key has exactly one segment left: one
/// segment resolves it to the value `get` returns, and no second segment
/// mentions the key.
pub proof fn lemma_one_segment_per_live_key(s: KvStore, k: Seq<char>)
    requires
        s.wf(),
        distinct_keys(s.entries()),
        s.map_view().contains_key(k),
    ensures
        exists|i: int|
            0 <= i < s.disk().len() && entry_of(#[trigger] s.disk()[i]) == (EntryModel::Put {
                key: k,
                value: s.map_view()[k],
            }),
        forall|i: int, j: int|
            0 <= i < j < s.disk().len() && (#[trigger] entry_of(s.disk()[i])).key() == k ==> (
            #[trigger] entry_of(s.disk()[j])).key() != k,
{
    assert(s.store@.contains_key(k));
    let i = choose|i: int|
        0 <= i < s.disk().len() && position_resolves(
            #[trigger] s.disk()[i],
            s.store@[k],
            k,
            s.map_view()[k],
        );
    assert(entry_of(s.disk()[i]) == (EntryModel::Put { key: k, value: s.map_view()[k] }));
    assert forall|i1: int, j1: int|
        0 <= i1 < j1 < s.disk().len() && (#[trigger] entry_of(s.disk()[i1])).key() == k implies (
    #[trigger] entry_of(s.disk()[j1])).key() != k by {
        assert(s.entries()[i1] == entry_of(s.disk()[i1]));
        assert(s.entries()[j1] == entry_of(s.disk()[j1]));
    }
}

/// Recovery rebuilds what was there: any two well-formed stores whose
/// directories hold the same segment files represent the same key-value
/// mapping. In particular, closing a store and reopening it from its
/// segment files yields the same `get` result for every key.
pub proof fn lemma_recovery_reproduces_state(a: KvStore, b: KvStore)
    requires
        a.wf(),
        b.wf(),
        a.disk_map() == b.disk_map(),
    ensures
        a.map_view() == b.map_view(),
{
    crate::model::lemma_sorted_segs_unique(a.disk(), b.disk());
    assert(a.entries() == b.entries());
}

} // verus!
