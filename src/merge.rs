//! The result merger: reconciles the digests of both sides by relative-path
//! key into unpaired entries and mismatches.
use vstd::prelude::*;
use crate::types::{DirSide, HashResult};
use crate::paths::{path_view, is_under, strip_root, relative_key, path_eq, bytes_eq};
use crate::digest::DIGEST_LEN;

verus! {

/// A relative-path key: the components of a path below its side's root.
pub type Key = Seq<Seq<u8>>;

/// A digest received for one file, with its relative-path key.
pub struct RecordView {
    pub side: DirSide,
    pub key: Key,
    pub digest: Seq<u8>,
}

/// A path present on both sides with different digests.
pub struct MismatchView {
    pub key: Key,
    pub left: Seq<u8>,
    pub right: Seq<u8>,
}

/// What the merger holds: the entries still waiting for their counterpart,
/// by key, and the mismatches found so far, in the order found.
pub struct MergeState {
    pub table: Map<Key, RecordView>,
    pub mismatches: Seq<MismatchView>,
}

/// Whether some entry of a sequence of records has key `k`.
pub open spec fn has_key(t: Seq<RecordView>, k: Key) -> bool {
    exists|i: int| 0 <= i < t.len() && (#[trigger] t[i]).key == k
}

/// The position of the entry with key `k`.
pub open spec fn key_index(t: Seq<RecordView>, k: Key) -> int {
    choose|i: int| 0 <= i < t.len() && (#[trigger] t[i]).key == k
}

/// No two entries of a sequence of records share a key.
pub open spec fn keys_unique(t: Seq<RecordView>) -> bool {
    forall|i: int, j: int| 0 <= i < j < t.len() ==> (#[trigger] t[i]).key != (#[trigger] t[j]).key
}

/// Whether some mismatch has key `k`.
pub open spec fn has_mismatch(m: Seq<MismatchView>, k: Key) -> bool {
    exists|i: int| 0 <= i < m.len() && (#[trigger] m[i]).key == k
}

/// No two mismatches share a key.
pub open spec fn mismatch_keys_unique(m: Seq<MismatchView>) -> bool {
    forall|i: int, j: int| 0 <= i < j < m.len() ==> (#[trigger] m[i]).key != (#[trigger] m[j]).key
}

/// The mismatch made of a waiting entry and the record that completes it,
/// with the left side's digest first whichever arrived first.
pub open spec fn ordered_pair(waiting: RecordView, arriving: RecordView) -> MismatchView {
    if arriving.side == DirSide::Left {
        MismatchView { key: arriving.key, left: arriving.digest, right: waiting.digest }
    } else {
        MismatchView { key: arriving.key, left: waiting.digest, right: arriving.digest }
    }
}

/// The merger's handling of one record: the first arrival of a key waits in
/// the table; the second takes it out and, where the digests differ, adds a
/// mismatch.
pub open spec fn merge_step(s: MergeState, r: RecordView) -> MergeState {
    if s.table.contains_key(r.key) {
        let waiting = s.table[r.key];
        MergeState {
            table: s.table.remove(r.key),
            mismatches: if waiting.digest == r.digest {
                s.mismatches
            } else {
                s.mismatches.push(ordered_pair(waiting, r))
            },
        }
    } else {
        MergeState { table: s.table.insert(r.key, r), mismatches: s.mismatches }
    }
}

/// The merger's state after the records, in the order received.
pub open spec fn merge_all(rs: Seq<RecordView>) -> MergeState
    decreases rs.len(),
{
    if rs.len() == 0 {
        MergeState { table: Map::empty(), mismatches: Seq::empty() }
    } else {
        merge_step(merge_all(rs.drop_last()), rs.last())
    }
}

/// A tree's files: the digest of each relative-path key.
pub type Tree = Map<Key, Seq<u8>>;

pub open spec fn tree_of(left: Tree, right: Tree, side: DirSide) -> Tree {
    if side == DirSide::Left { left } else { right }
}

/// Whether some record of `rs` has side `side` and key `k`.
pub open spec fn seen(rs: Seq<RecordView>, side: DirSide, k: Key) -> bool {
    exists|j: int| 0 <= j < rs.len() && (#[trigger] rs[j]).side == side && rs[j].key == k
}

/// The records come from the two trees, each file at most once: every
/// record's digest is its file's digest in its side's tree.
pub open spec fn drawn_from(rs: Seq<RecordView>, left: Tree, right: Tree) -> bool {
    &&& forall|j: int| 0 <= j < rs.len() ==>
        tree_of(left, right, (#[trigger] rs[j]).side).contains_key(rs[j].key)
            && tree_of(left, right, rs[j].side)[rs[j].key] == rs[j].digest
    &&& forall|i: int, j: int| 0 <= i < j < rs.len() ==>
        !((#[trigger] rs[i]).side == (#[trigger] rs[j]).side && rs[i].key == rs[j].key)
}

/// The records are exactly one per file of the two trees, in some order.
pub open spec fn batch_of(rs: Seq<RecordView>, left: Tree, right: Tree) -> bool {
    &&& drawn_from(rs, left, right)
    &&& forall|k: Key| left.contains_key(k) ==> seen(rs, DirSide::Left, k)
    &&& forall|k: Key| right.contains_key(k) ==> seen(rs, DirSide::Right, k)
}

/// What the merger holds after records drawn from two trees, whatever
/// their order.
pub open spec fn reconciled(s: MergeState, rs: Seq<RecordView>, left: Tree, right: Tree) -> bool {
    &&& mismatch_keys_unique(s.mismatches)
    &&& forall|k: Key|
        #[trigger] s.table.contains_key(k) == (seen(rs, DirSide::Left, k) != seen(rs, DirSide::Right, k))
    &&& forall|k: Key| #[trigger] s.table.contains_key(k) ==> {
        let e = s.table[k];
        &&& e.key == k
        &&& seen(rs, e.side, k)
        &&& tree_of(left, right, e.side).contains_key(k)
        &&& tree_of(left, right, e.side)[k] == e.digest
    }
    &&& forall|k: Key|
        #[trigger] has_mismatch(s.mismatches, k) == (seen(rs, DirSide::Left, k) && seen(
            rs,
            DirSide::Right,
            k,
        ) && left[k] != right[k])
    &&& forall|i: int| 0 <= i < s.mismatches.len() ==> {
        let m = #[trigger] s.mismatches[i];
        &&& left.contains_key(m.key) && right.contains_key(m.key)
        &&& m.left == left[m.key] && m.right == right[m.key]
    }
}

proof fn lemma_seen_push(rs: Seq<RecordView>, r: RecordView, side: DirSide, k: Key)
    ensures
        seen(rs.push(r), side, k) == (seen(rs, side, k) || (r.side == side && r.key == k)),
{
    let rs2 = rs.push(r);
    if seen(rs, side, k) {
        let j = choose|j: int| 0 <= j < rs.len() && (#[trigger] rs[j]).side == side && rs[j].key == k;
        assert(rs2[j] == rs[j]);
    }
    if r.side == side && r.key == k {
        assert(rs2[rs.len() as int] == r);
    }
    if seen(rs2, side, k) {
        let j = choose|j: int| 0 <= j < rs2.len() && (#[trigger] rs2[j]).side == side && rs2[j].key == k;
        if j < rs.len() {
            assert(rs[j] == rs2[j]);
        }
    }
}

/// After any records drawn from two trees, in any order, the unpaired
/// entries are exactly the files seen on one side only, each with its
/// digest, and the mismatches are exactly the files seen on both sides with
/// different digests, each once.
pub proof fn lemma_merge_all_reconciled(rs: Seq<RecordView>, left: Tree, right: Tree)
    requires
        drawn_from(rs, left, right),
    ensures
        reconciled(merge_all(rs), rs, left, right),
    decreases rs.len(),
{
    if rs.len() == 0 {
        assert forall|k: Key| !seen(rs, DirSide::Left, k) && !seen(rs, DirSide::Right, k) by {}
        return;
    }
    let prev = rs.drop_last();
    let r = rs.last();
    assert(rs == prev.push(r));
    assert(drawn_from(prev, left, right)) by {
        assert forall|j: int| 0 <= j < prev.len() implies #[trigger] prev[j] == rs[j] by {}
    }
    lemma_merge_all_reconciled(prev, left, right);
    let s = merge_all(prev);
    let n = merge_all(rs);
    assert(n == merge_step(s, r));
    assert(!seen(prev, r.side, r.key)) by {
        if seen(prev, r.side, r.key) {
            let j = choose|j: int| 0 <= j < prev.len() && (#[trigger] prev[j]).side == r.side && prev[j].key == r.key;
            assert(rs[j] == prev[j]);
            assert(rs[prev.len() as int] == r);
        }
    }
    assert(tree_of(left, right, r.side).contains_key(r.key)
        && tree_of(left, right, r.side)[r.key] == r.digest) by {
        assert(rs[rs.len() - 1] == r);
    }
    assert forall|side: DirSide, k: Key|
        #[trigger] seen(rs, side, k) == (seen(prev, side, k) || (r.side == side && r.key == k)) by {
        lemma_seen_push(prev, r, side, k);
    }
    if s.table.contains_key(r.key) {
        let w = s.table[r.key];
        assert(w.side != r.side);
        assert(!has_mismatch(s.mismatches, r.key));
        if w.digest != r.digest {
            let m = ordered_pair(w, r);
            assert(n.mismatches == s.mismatches.push(m));
            assert(n.mismatches[s.mismatches.len() as int] == m);
            assert forall|k: Key| #[trigger] has_mismatch(n.mismatches, k) == (has_mismatch(
                s.mismatches,
                k,
            ) || k == r.key) by {
                if has_mismatch(s.mismatches, k) {
                    let a = choose|a: int| 0 <= a < s.mismatches.len() && (#[trigger] s.mismatches[a]).key == k;
                    assert(n.mismatches[a] == s.mismatches[a]);
                }
                if has_mismatch(n.mismatches, k) {
                    let a = choose|a: int| 0 <= a < n.mismatches.len() && (#[trigger] n.mismatches[a]).key == k;
                    if a < s.mismatches.len() {
                        assert(n.mismatches[a] == s.mismatches[a]);
                    }
                }
            }
            assert forall|a: int, b: int| 0 <= a < b < n.mismatches.len() implies (#[trigger] n.mismatches[a]).key
                != (#[trigger] n.mismatches[b]).key by {
                assert(n.mismatches[a] == s.mismatches[a]);
                if b < s.mismatches.len() {
                    assert(n.mismatches[b] == s.mismatches[b]);
                } else {
                    assert(has_mismatch(s.mismatches, s.mismatches[a].key));
                }
            }
            assert forall|a: int| 0 <= a < n.mismatches.len() implies {
                let mm = #[trigger] n.mismatches[a];
                &&& left.contains_key(mm.key) && right.contains_key(mm.key)
                &&& mm.left == left[mm.key] && mm.right == right[mm.key]
            } by {
                if a < s.mismatches.len() {
                    assert(n.mismatches[a] == s.mismatches[a]);
                }
            }
        }
    } else {
        let o = if r.side == DirSide::Left { DirSide::Right } else { DirSide::Left };
        assert(!seen(prev, o, r.key));
    }
}


/// Two identical trees reconcile to nothing: whatever order their digests
/// arrive in, no entry is left unpaired and no mismatch is found.
pub proof fn lemma_identical_trees_reconcile_empty(rs: Seq<RecordView>, left: Tree, right: Tree)
    requires
        batch_of(rs, left, right),
        left == right,
    ensures
        merge_all(rs).table == Map::<Key, RecordView>::empty(),
        merge_all(rs).mismatches.len() == 0,
{
    lemma_merge_all_reconciled(rs, left, right);
    let s = merge_all(rs);
    assert forall|k: Key| !s.table.contains_key(k) by {
        if s.table.contains_key(k) {
            assert(left.contains_key(k));
            assert(seen(rs, DirSide::Left, k));
            assert(seen(rs, DirSide::Right, k));
        }
    }
    assert(s.table =~= Map::<Key, RecordView>::empty());
    if s.mismatches.len() > 0 {
        let m = s.mismatches[0];
        assert(has_mismatch(s.mismatches, m.key));
    }
}

/// A file present on both sides with different contents gives exactly one
/// mismatch, which carries the left digest first and the right digest
/// second, and the file is left in neither side's unpaired entries.
pub proof fn lemma_differing_file_one_mismatch(rs: Seq<RecordView>, left: Tree, right: Tree, k: Key)
    requires
        batch_of(rs, left, right),
        left.contains_key(k),
        right.contains_key(k),
        left[k] != right[k],
    ensures
        exists|i: int|
            0 <= i < merge_all(rs).mismatches.len() && (#[trigger] merge_all(rs).mismatches[i]) == (
            MismatchView { key: k, left: left[k], right: right[k] }),
        forall|i: int, j: int|
            0 <= i < merge_all(rs).mismatches.len() && 0 <= j < merge_all(rs).mismatches.len()
                && (#[trigger] merge_all(rs).mismatches[i]).key == k
                && (#[trigger] merge_all(rs).mismatches[j]).key == k ==> i == j,
        !merge_all(rs).table.contains_key(k),
{
    lemma_merge_all_reconciled(rs, left, right);
    let s = merge_all(rs);
    assert(has_mismatch(s.mismatches, k));
    let i = choose|i: int| 0 <= i < s.mismatches.len() && (#[trigger] s.mismatches[i]).key == k;
    assert(s.mismatches[i] == MismatchView { key: k, left: left[k], right: right[k] });
    assert forall|a: int, b: int|
        0 <= a < s.mismatches.len() && 0 <= b < s.mismatches.len()
            && (#[trigger] s.mismatches[a]).key == k
            && (#[trigger] s.mismatches[b]).key == k implies a == b by {
        if a < b {
            assert(s.mismatches[a].key != s.mismatches[b].key);
        } else if b < a {
            assert(s.mismatches[b].key != s.mismatches[a].key);
        }
    }
}

/// A file present on one side only stays unpaired, tagged with that side
/// and carrying its digest, and gives no mismatch.
pub proof fn lemma_one_sided_file_unpaired(
    rs: Seq<RecordView>,
    left: Tree,
    right: Tree,
    k: Key,
    side: DirSide,
)
    requires
        batch_of(rs, left, right),
        tree_of(left, right, side).contains_key(k),
        !tree_of(left, right, if side == DirSide::Left { DirSide::Right } else { DirSide::Left }).contains_key(k),
    ensures
        merge_all(rs).table.contains_key(k),
        merge_all(rs).table[k] == (RecordView { side, key: k, digest: tree_of(left, right, side)[k] }),
        !has_mismatch(merge_all(rs).mismatches, k),
{
    lemma_merge_all_reconciled(rs, left, right);
    let s = merge_all(rs);
    let o = if side == DirSide::Left { DirSide::Right } else { DirSide::Left };
    assert(seen(rs, side, k));
    assert(!seen(rs, o, k)) by {
        if seen(rs, o, k) {
            let j = choose|j: int| 0 <= j < rs.len() && (#[trigger] rs[j]).side == o && rs[j].key == k;
            assert(tree_of(left, right, rs[j].side).contains_key(rs[j].key));
        }
    }
    assert(s.table.contains_key(k));
    assert(s.table[k].side == side);
}

/// The outcome does not depend on the order in which digests arrive, and so
/// neither on the shuffle nor on the number of workers: any two arrival
/// orders of the digests of the same two trees leave the same unpaired
/// entries and the same mismatches.
pub proof fn lemma_outcome_independent_of_order(
    rs1: Seq<RecordView>,
    rs2: Seq<RecordView>,
    left: Tree,
    right: Tree,
)
    requires
        batch_of(rs1, left, right),
        batch_of(rs2, left, right),
    ensures
        merge_all(rs1).table == merge_all(rs2).table,
        merge_all(rs1).mismatches.to_set() == merge_all(rs2).mismatches.to_set(),
{
    lemma_merge_all_reconciled(rs1, left, right);
    lemma_merge_all_reconciled(rs2, left, right);
    let t1 = merge_all(rs1).table;
    let t2 = merge_all(rs2).table;
    assert forall|k: Key| #[trigger] t1.contains_key(k) == t2.contains_key(k) by {
        lemma_seen_batch(rs1, left, right, DirSide::Left, k);
        lemma_seen_batch(rs1, left, right, DirSide::Right, k);
        lemma_seen_batch(rs2, left, right, DirSide::Left, k);
        lemma_seen_batch(rs2, left, right, DirSide::Right, k);
    }
    assert forall|k: Key| #[trigger] t1.contains_key(k) implies t1[k] == t2[k] by {
        lemma_seen_batch(rs1, left, right, DirSide::Left, k);
        lemma_seen_batch(rs1, left, right, DirSide::Right, k);
        lemma_seen_batch(rs2, left, right, DirSide::Left, k);
        lemma_seen_batch(rs2, left, right, DirSide::Right, k);
        assert(t1[k].side == t2[k].side);
    }
    assert(t1 =~= t2);
    lemma_mismatches_included(rs1, rs2, left, right);
    lemma_mismatches_included(rs2, rs1, left, right);
    assert(merge_all(rs1).mismatches.to_set() =~= merge_all(rs2).mismatches.to_set());
}

proof fn lemma_seen_batch(rs: Seq<RecordView>, left: Tree, right: Tree, side: DirSide, k: Key)
    requires
        batch_of(rs, left, right),
    ensures
        seen(rs, side, k) == tree_of(left, right, side).contains_key(k),
{
    if seen(rs, side, k) {
        let j = choose|j: int| 0 <= j < rs.len() && (#[trigger] rs[j]).side == side && rs[j].key == k;
        assert(tree_of(left, right, rs[j].side).contains_key(rs[j].key));
    }
}

proof fn lemma_mismatches_included(rs1: Seq<RecordView>, rs2: Seq<RecordView>, left: Tree, right: Tree)
    requires
        batch_of(rs1, left, right),
        batch_of(rs2, left, right),
    ensures
        forall|x: MismatchView| merge_all(rs1).mismatches.contains(x) ==> merge_all(rs2).mismatches.contains(x),
{
    lemma_merge_all_reconciled(rs1, left, right);
    lemma_merge_all_reconciled(rs2, left, right);
    let s1 = merge_all(rs1);
    let s2 = merge_all(rs2);
    assert forall|x: MismatchView| s1.mismatches.contains(x) implies s2.mismatches.contains(x) by {
        let i = choose|i: int| 0 <= i < s1.mismatches.len() && s1.mismatches[i] == x;
        assert(has_mismatch(s1.mismatches, x.key));
        lemma_seen_batch(rs1, left, right, DirSide::Left, x.key);
        lemma_seen_batch(rs1, left, right, DirSide::Right, x.key);
        lemma_seen_batch(rs2, left, right, DirSide::Left, x.key);
        lemma_seen_batch(rs2, left, right, DirSide::Right, x.key);
        assert(has_mismatch(s2.mismatches, x.key));
        let i2 = choose|i2: int| 0 <= i2 < s2.mismatches.len() && (#[trigger] s2.mismatches[i2]).key == x.key;
        assert(s2.mismatches[i2] == x);
    }
}



/// A file waiting in the reconciliation table for its counterpart.
pub struct TableEntry {
    pub key: Vec<Vec<u8>>,
    pub record: HashResult,
}

/// A path whose two sides have different digests.
pub struct Mismatch {
    pub key: Vec<Vec<u8>>,
    pub left: HashResult,
    pub right: HashResult,
}

/// Why the merger refused a record.
#[derive(Clone, Copy, PartialEq, Eq, Structural, Debug)]
pub enum MergeError {
    /// The record's path does not lie under the root of its side: the walk
    /// that produced it broke its own invariant.
    OutsideRoot,
}

pub open spec fn entry_view(e: TableEntry) -> RecordView {
    RecordView { side: e.record.side, key: path_view(e.key@), digest: e.record.hash@ }
}

pub open spec fn mismatch_view(m: Mismatch) -> MismatchView {
    MismatchView { key: path_view(m.key@), left: m.left.hash@, right: m.right.hash@ }
}

/// The record that the merger derives from a digest: its key is the path
/// with the root of its side stripped.
pub open spec fn record_view(r: HashResult, root: Key) -> RecordView {
    RecordView { side: r.side, key: strip_root(path_view(r.path@), root), digest: r.hash@ }
}

/// Every digest held has the length of a SHA-256 digest.
pub open spec fn digests_sized(s: MergeState) -> bool {
    &&& forall|k: Key| #[trigger] s.table.contains_key(k) ==> s.table[k].digest.len() == DIGEST_LEN
    &&& forall|i: int| 0 <= i < s.mismatches.len() ==> {
        &&& (#[trigger] s.mismatches[i]).left.len() == DIGEST_LEN
        &&& s.mismatches[i].right.len() == DIGEST_LEN
    }
}

/// The number of buckets of the reconciliation table.
pub const BUCKETS: u64 = 65536;

pub const HASH_OFFSET: u64 = 0xcbf2_9ce4_8422_2325;

pub const HASH_PRIME: u64 = 0x0000_0100_0000_01b3;

/// One step of the FNV-1a hash.
pub open spec fn hash_byte(h: u64, b: u8) -> u64 {
    (h ^ (b as u64)).wrapping_mul(HASH_PRIME)
}

pub open spec fn hash_bytes(h: u64, s: Seq<u8>) -> u64
    decreases s.len(),
{
    if s.len() == 0 {
        h
    } else {
        hash_byte(hash_bytes(h, s.drop_last()), s.last())
    }
}

/// The FNV-1a hash of a key, with a zero byte after each component.
pub open spec fn key_hash(k: Key) -> u64
    decreases k.len(),
{
    if k.len() == 0 {
        HASH_OFFSET
    } else {
        hash_byte(hash_bytes(key_hash(k.drop_last()), k.last()), 0)
    }
}

/// The bucket that holds the entry with key `k`.
pub open spec fn bucket_of(k: Key) -> int {
    (key_hash(k) % BUCKETS) as int
}

/// Hashes a key.
pub fn hash_key(k: &Vec<Vec<u8>>) -> (r: u64)
    ensures
        r == key_hash(path_view(k@)),
{
    let ghost kv = path_view(k@);
    let mut h: u64 = HASH_OFFSET;
    let mut i: usize = 0;
    while i < k.len()
        invariant
            0 <= i <= k.len(),
            kv == path_view(k@),
            h == key_hash(kv.take(i as int)),
        decreases k.len() - i,
    {
        assert(kv.take(i as int + 1).drop_last() == kv.take(i as int));
        assert(kv[i as int] == k@[i as int]@);
        let c = &k[i];
        let ghost h0 = h;
        let mut j: usize = 0;
        while j < c.len()
            invariant
                0 <= j <= c.len(),
                h == hash_bytes(h0, c@.take(j as int)),
            decreases c.len() - j,
        {
            assert(c@.take(j as int + 1).drop_last() == c@.take(j as int));
            h = (h ^ (c[j] as u64)).wrapping_mul(HASH_PRIME);
            j = j + 1;
        }
        assert(c@.take(c.len() as int) == c@);
        h = (h ^ 0u64).wrapping_mul(HASH_PRIME);
        i = i + 1;
    }
    assert(kv.take(k.len() as int) == kv);
    h
}

pub open spec fn bucket_view(b: Vec<TableEntry>) -> Seq<RecordView> {
    b@.map_values(|e: TableEntry| entry_view(e))
}

/// The table described by the buckets: a key is present where its bucket
/// holds an entry with that key.
pub open spec fn table_of(bs: Seq<Seq<RecordView>>) -> Map<Key, RecordView> {
    Map::new(
        |k: Key| has_key(bs[bucket_of(k)], k),
        |k: Key| bs[bucket_of(k)][key_index(bs[bucket_of(k)], k)],
    )
}

/// Every entry sits in the bucket of its key, and no bucket holds a key
/// twice.
pub open spec fn buckets_wf(bs: Seq<Seq<RecordView>>) -> bool {
    &&& bs.len() == BUCKETS
    &&& forall|i: int, j: int| 0 <= i < bs.len() && 0 <= j < bs[i].len() ==> bucket_of((#[trigger] bs[i][j]).key) == i
    &&& forall|i: int| 0 <= i < bs.len() ==> keys_unique(#[trigger] bs[i])
}

proof fn lemma_bucket_remove(t: Seq<RecordView>, i: int, k: Key)
    requires
        keys_unique(t),
        0 <= i < t.len(),
    ensures
        keys_unique(t.remove(i)),
        k == t[i].key ==> !has_key(t.remove(i), k),
        k != t[i].key ==> has_key(t.remove(i), k) == has_key(t, k),
        k != t[i].key && has_key(t, k) ==> t.remove(i)[key_index(t.remove(i), k)] == t[key_index(t, k)],
{
    let n = t.remove(i);
    assert forall|a: int, b: int| 0 <= a < b < n.len() implies (#[trigger] n[a]).key != (#[trigger] n[b]).key by {
        let a0 = if a < i { a } else { a + 1 };
        let b0 = if b < i { b } else { b + 1 };
        assert(n[a] == t[a0]);
        assert(n[b] == t[b0]);
    }
    if has_key(n, k) {
        let a = choose|a: int| 0 <= a < n.len() && (#[trigger] n[a]).key == k;
        let a0 = if a < i { a } else { a + 1 };
        assert(n[a] == t[a0]);
        assert(has_key(t, k));
    }
    if k != t[i].key && has_key(t, k) {
        let c = key_index(t, k);
        assert(c != i);
        let c1 = if c < i { c } else { c - 1 };
        assert(n[c1] == t[c]);
        assert(has_key(n, k));
        let d = key_index(n, k);
        assert(d == c1);
    }
}

proof fn lemma_bucket_push(t: Seq<RecordView>, r: RecordView, k: Key)
    requires
        keys_unique(t),
        !has_key(t, r.key),
    ensures
        keys_unique(t.push(r)),
        has_key(t.push(r), k) == (has_key(t, k) || k == r.key),
        k == r.key ==> t.push(r)[key_index(t.push(r), k)] == r,
        k != r.key && has_key(t, k) ==> t.push(r)[key_index(t.push(r), k)] == t[key_index(t, k)],
{
    let n = t.push(r);
    assert(n[t.len() as int] == r);
    assert forall|a: int, b: int| 0 <= a < b < n.len() implies (#[trigger] n[a]).key != (#[trigger] n[b]).key by {
        assert(n[a] == t[a]);
        if b < t.len() {
            assert(n[b] == t[b]);
        }
    }
    if has_key(t, k) {
        let c = key_index(t, k);
        assert(n[c] == t[c]);
    }
    if has_key(n, k) {
        let a = choose|a: int| 0 <= a < n.len() && (#[trigger] n[a]).key == k;
        if a < t.len() {
            assert(n[a] == t[a]);
        }
    }
    if has_key(n, k) {
        let d = key_index(n, k);
        if d < t.len() {
            assert(n[d] == t[d]);
        }
        if k == r.key {
            assert(d == t.len() as int);
        } else if has_key(t, k) {
            assert(d == key_index(t, k));
        }
    }
}

/// The single consumer of the result stream. It reconciles the digests of
/// both sides by relative-path key, and counts the markers with which the
/// workers announce their end; it has finished once every worker has.
pub struct Merger {
    left_root: Vec<Vec<u8>>,
    right_root: Vec<Vec<u8>>,
    workers: u32,
    markers: u64,
    buckets: Vec<Vec<TableEntry>>,
    mismatches: Vec<Mismatch>,
    received: Ghost<Seq<RecordView>>,
}

impl Merger {
    pub closed spec fn bucket_views(&self) -> Seq<Seq<RecordView>> {
        self.buckets@.map_values(|b: Vec<TableEntry>| bucket_view(b))
    }

    /// The table and the mismatches, over their mathematical forms.
    pub closed spec fn state(&self) -> MergeState {
        MergeState {
            table: table_of(self.bucket_views()),
            mismatches: self.mismatches@.map_values(|m: Mismatch| mismatch_view(m)),
        }
    }

    /// The records reconciled so far, in the order received.
    pub closed spec fn received(&self) -> Seq<RecordView> {
        self.received@
    }

    pub closed spec fn root(&self, side: DirSide) -> Key {
        if side == DirSide::Left {
            path_view(self.left_root@)
        } else {
            path_view(self.right_root@)
        }
    }

    pub closed spec fn worker_count(&self) -> nat {
        self.workers as nat
    }

    /// The markers counted so far, the merger's own start included.
    pub closed spec fn markers_counted(&self) -> nat {
        self.markers as nat
    }

    /// Whether every worker has announced its end.
    pub open spec fn finished(&self) -> bool {
        self.markers_counted() > self.worker_count()
    }

    pub closed spec fn wf(&self) -> bool {
        &&& buckets_wf(self.bucket_views())
        &&& self.state() == merge_all(self.received@)
        &&& digests_sized(self.state())
        &&& 1 <= self.markers <= self.workers as u64 + 1
    }

    /// A merger for the given roots and number of workers, with nothing
    /// received.
    pub fn new(left_root: Vec<Vec<u8>>, right_root: Vec<Vec<u8>>, workers: u32) -> (r: Merger)
        ensures
            r.wf(),
            r.received() == Seq::<RecordView>::empty(),
            r.state() == merge_all(r.received()),
            r.root(DirSide::Left) == path_view(left_root@),
            r.root(DirSide::Right) == path_view(right_root@),
            r.worker_count() == workers,
            r.markers_counted() == 1,
    {
        let mut buckets: Vec<Vec<TableEntry>> = Vec::new();
        while (buckets.len() as u64) < BUCKETS
            invariant
                buckets.len() <= BUCKETS,
                forall|i: int| 0 <= i < buckets.len() ==> (#[trigger] buckets@[i])@.len() == 0,
            decreases BUCKETS - buckets.len(),
        {
            buckets.push(Vec::new());
        }
        let r = Merger {
            left_root,
            right_root,
            workers,
            markers: 1,
            buckets,
            mismatches: Vec::new(),
            received: Ghost(Seq::empty()),
        };
        assert forall|i: int| 0 <= i < r.bucket_views().len() implies (#[trigger] r.bucket_views()[i]).len() == 0 by {
            assert(r.buckets@[i]@.len() == 0);
        }
        assert(r.state().table =~= Map::empty());
        assert(r.state().mismatches =~= Seq::empty());
        r
    }

    /// Whether every worker has announced its end.
    pub fn is_finished(&self) -> (r: bool)
        requires
            self.wf(),
        ensures
            r == self.finished(),
    {
        self.markers > self.workers as u64
    }

    /// Takes in one digest. Its key is its path with its side's root
    /// stripped; a path outside that root is refused and changes nothing.
    /// Otherwise the first digest of a key waits in the table, and the
    /// second takes the first out and, where the two differ, is recorded as
    /// a mismatch with the left side's digest first.
    pub fn on_record(&mut self, r: HashResult) -> (res: Result<(), MergeError>)
        requires
            old(self).wf(),
            !old(self).finished(),
            r.hash@.len() == DIGEST_LEN,
        ensures
            final(self).wf(),
            final(self).state() == merge_all(final(self).received()),
            final(self).root(DirSide::Left) == old(self).root(DirSide::Left),
            final(self).root(DirSide::Right) == old(self).root(DirSide::Right),
            final(self).worker_count() == old(self).worker_count(),
            final(self).markers_counted() == old(self).markers_counted(),
            res.is_ok() == is_under(path_view(r.path@), old(self).root(r.side)),
            res.is_ok() ==> {
                let rv = record_view(r, old(self).root(r.side));
                &&& final(self).received() == old(self).received().push(rv)
                &&& final(self).state() == merge_step(old(self).state(), rv)
            },
            res is Err ==> res == Err::<(), MergeError>(MergeError::OutsideRoot),
            res is Err ==> final(self).received() == old(self).received()
                && final(self).state() == old(self).state(),
    {
        let rel = match r.side {
            DirSide::Left => relative_key(&r.path, &self.left_root),
            DirSide::Right => relative_key(&r.path, &self.right_root),
        };
        let key = match rel {
            Some(k) => k,
            None => {
                return Err(MergeError::OutsideRoot);
            },
        };
        let ghost rv = record_view(r, self.root(r.side));
        let ghost s0 = self.state();
        let ghost bs0 = self.bucket_views();
        let b = (hash_key(&key) % BUCKETS) as usize;
        assert(b as int == bucket_of(rv.key));
        let mut bucket: Vec<TableEntry> = Vec::new();
        self.buckets.set_and_swap(b, &mut bucket);
        let ghost t0 = bucket_view(bucket);
        assert(t0 == bs0[b as int]);
        let mut i: usize = 0;
        let mut found = false;
        while i < bucket.len()
            invariant_except_break
                !found,
            invariant
                0 <= i <= bucket.len(),
                bucket_view(bucket) == t0,
                path_view(key@) == rv.key,
                forall|j: int| 0 <= j < i ==> (#[trigger] t0[j]).key != rv.key,
            ensures
                found ==> i < bucket.len() && t0[i as int].key == rv.key,
                !found ==> forall|j: int| 0 <= j < t0.len() ==> (#[trigger] t0[j]).key != rv.key,
            decreases bucket.len() - i,
        {
            assert(t0[i as int] == entry_view(bucket@[i as int]));
            if path_eq(&bucket[i].key, &key) {
                found = true;
                break;
            }
            i = i + 1;
        }
        proof {
            self.received@ = self.received@.push(rv);
            assert(self.received@.drop_last() =~= old(self).received@);
        }
        assert(s0.table.contains_key(rv.key) == found) by {
            if found {
                assert(has_key(t0, rv.key));
            }
        }
        if found {
            assert(key_index(t0, rv.key) == i as int) by {
                let c = key_index(t0, rv.key);
                assert(t0[c].key == rv.key);
            }
            let waiting = bucket.remove(i);
            assert(bucket_view(bucket) =~= t0.remove(i as int));
            if !bytes_eq(&waiting.record.hash, &r.hash) {
                let m = match r.side {
                    DirSide::Left => Mismatch { key, left: r, right: waiting.record },
                    DirSide::Right => Mismatch { key, left: waiting.record, right: r },
                };
                self.mismatches.push(m);
            }
        } else {
            bucket.push(TableEntry { key, record: r });
            assert(bucket_view(bucket) =~= t0.push(rv));
        }
        let ghost t1 = bucket_view(bucket);
        self.buckets.set_and_swap(b, &mut bucket);
        let ghost bs1 = self.bucket_views();
        assert(bs1 =~= bs0.update(b as int, t1));
        let ghost s1 = merge_step(s0, rv);
        assert(keys_unique(t0));
        assert forall|k: Key| #[trigger] has_key(bs1[bucket_of(k)], k) == s1.table.contains_key(k)
            && (s1.table.contains_key(k) ==> bs1[bucket_of(k)][key_index(bs1[bucket_of(k)], k)]
            == s1.table[k]) by {
            if bucket_of(k) != b as int {
                assert(bs1[bucket_of(k)] == bs0[bucket_of(k)]);
            } else if found {
                lemma_bucket_remove(t0, i as int, k);
            } else {
                lemma_bucket_push(t0, rv, k);
            }
        }
        assert(self.state().table =~= s1.table);
        assert(self.state().mismatches =~= s1.mismatches);
        proof {
            if found {
                lemma_bucket_remove(t0, i as int, rv.key);
            } else {
                lemma_bucket_push(t0, rv, rv.key);
            }
        }
        assert forall|x: int, y: int| 0 <= x < bs1.len() && 0 <= y < bs1[x].len() implies bucket_of(
            (#[trigger] bs1[x][y]).key,
        ) == x by {
            if x == b as int {
                if found {
                    let y0 = if y < i { y } else { y + 1 };
                    assert(bs1[x][y] == t0[y0]);
                } else if y < t0.len() {
                    assert(bs1[x][y] == t0[y]);
                }
            }
        }
        assert forall|k: Key| #[trigger] s1.table.contains_key(k) implies s1.table[k].digest.len() == DIGEST_LEN by {
            if k != rv.key {
                assert(s0.table.contains_key(k));
            }
        }
        Ok(())
    }

    /// Counts one worker's end marker; returns whether every worker has now
    /// announced its end.
    pub fn on_worker_done(&mut self) -> (done: bool)
        requires
            old(self).wf(),
            !old(self).finished(),
        ensures
            final(self).wf(),
            final(self).state() == merge_all(final(self).received()),
            final(self).markers_counted() == old(self).markers_counted() + 1,
            done == final(self).finished(),
            final(self).state() == old(self).state(),
            final(self).received() == old(self).received(),
            final(self).root(DirSide::Left) == old(self).root(DirSide::Left),
            final(self).root(DirSide::Right) == old(self).root(DirSide::Right),
            final(self).worker_count() == old(self).worker_count(),
    {
        self.markers = self.markers + 1;
        self.markers > self.workers as u64
    }

    /// Whether the two trees were found identical: nothing waits unpaired
    /// and no mismatch was found.
    pub fn is_identical(&self) -> (r: bool)
        requires
            self.wf(),
        ensures
            r == (self.state().table == Map::<Key, RecordView>::empty() && self.state().mismatches.len() == 0),
    {
        let ghost bs = self.bucket_views();
        if self.mismatches.len() > 0 {
            assert(self.state().mismatches.len() > 0);
            return false;
        }
        assert(self.state().mismatches.len() == 0);
        let mut i: usize = 0;
        while i < self.buckets.len()
            invariant
                0 <= i <= self.buckets.len(),
                bs == self.bucket_views(),
                buckets_wf(bs),
                forall|j: int| 0 <= j < i ==> (#[trigger] bs[j]).len() == 0,
            decreases self.buckets.len() - i,
        {
            if self.buckets[i].len() > 0 {
                let ghost e = bs[i as int][0];
                assert(bucket_of(e.key) == i as int);
                assert(has_key(bs[i as int], e.key));
                assert(self.state().table.contains_key(e.key));
                return false;
            }
            assert(bs[i as int].len() == 0);
            i = i + 1;
        }
        assert forall|k: Key| !self.state().table.contains_key(k) by {
            let c = bucket_of(k);
            assert(0 <= c < bs.len());
            assert(bs[c].len() == 0);
        }
        assert(self.state().table =~= Map::<Key, RecordView>::empty());
        true
    }

    /// The entry that waits for its counterpart under a key, if any.
    pub fn lookup(&self, key: &Vec<Vec<u8>>) -> (r: Option<&TableEntry>)
        requires
            self.wf(),
        ensures
            r.is_some() == self.state().table.contains_key(path_view(key@)),
            r.is_some() ==> entry_view(*r->0) == self.state().table[path_view(key@)],
    {
        let ghost k = path_view(key@);
        let ghost bs = self.bucket_views();
        let b = (hash_key(key) % BUCKETS) as usize;
        assert(b as int == bucket_of(k));
        let bucket = &self.buckets[b];
        let ghost t = bs[b as int];
        assert(t == bucket_view(*bucket));
        let mut i: usize = 0;
        while i < bucket.len()
            invariant
                0 <= i <= bucket.len(),
                t == bucket_view(*bucket),
                k == path_view(key@),
                bs == self.bucket_views(),
                0 <= bucket_of(k) < bs.len(),
                t == bs[bucket_of(k)],
                keys_unique(t),
                forall|j: int| 0 <= j < i ==> (#[trigger] t[j]).key != k,
            decreases bucket.len() - i,
        {
            assert(t[i as int] == entry_view(bucket@[i as int]));
            if path_eq(&bucket[i].key, key) {
                assert(t[i as int].key == k);
                assert(has_key(t, k));
                assert(key_index(t, k) == i as int) by {
                    let c = key_index(t, k);
                    assert(t[c].key == k);
                }
                return Some(&bucket[i]);
            }
            i = i + 1;
        }
        assert(!has_key(t, k));
        None
    }

    /// The mismatches, in the order found.
    pub fn mismatched(&self) -> (r: &Vec<Mismatch>)
        requires
            self.wf(),
        ensures
            r@.map_values(|m: Mismatch| mismatch_view(m)) == self.state().mismatches,
            forall|i: int| 0 <= i < r@.len() ==> (#[trigger] r@[i]).left.hash@.len() == DIGEST_LEN
                && r@[i].right.hash@.len() == DIGEST_LEN,
    {
        assert forall|i: int| 0 <= i < self.mismatches@.len() implies (#[trigger] self.mismatches@[i]).left.hash@.len()
            == DIGEST_LEN && self.mismatches@[i].right.hash@.len() == DIGEST_LEN by {
            assert(self.state().mismatches[i] == mismatch_view(self.mismatches@[i]));
        }
        &self.mismatches
    }

    /// The buckets of the reconciliation table.
    pub closed spec fn buckets_of(&self) -> Seq<Vec<TableEntry>> {
        self.buckets@
    }

    pub(crate) fn bucket_list(&self) -> (r: &Vec<Vec<TableEntry>>)
        ensures
            r@ == self.buckets_of(),
    {
        &self.buckets
    }

    /// Facts about the buckets that reading them needs.
    pub(crate) proof fn lemma_buckets(&self)
        requires
            self.wf(),
        ensures
            self.buckets_of().len() == BUCKETS,
            forall|i: int, j: int|
                0 <= i < self.buckets_of().len() && 0 <= j < self.buckets_of()[i]@.len() ==> {
                    let e = entry_view(#[trigger] self.buckets_of()[i]@[j]);
                    &&& bucket_of(e.key) == i
                    &&& self.state().table.contains_key(e.key)
                    &&& self.state().table[e.key] == e
                    &&& key_index(bucket_view(self.buckets_of()[i]), e.key) == j
                },
            forall|k: Key| #[trigger] self.state().table.contains_key(k) ==> has_key(
                bucket_view(self.buckets_of()[bucket_of(k)]),
                k,
            ),
            forall|k: Key| self.state().table.contains_key(k) ==> 0 <= #[trigger] bucket_of(k) < BUCKETS,
    {
        let bs = self.bucket_views();
        assert forall|i: int, j: int|
            0 <= i < self.buckets_of().len() && 0 <= j < self.buckets_of()[i]@.len() implies {
                let e = entry_view(#[trigger] self.buckets_of()[i]@[j]);
                &&& bucket_of(e.key) == i
                &&& self.state().table.contains_key(e.key)
                &&& self.state().table[e.key] == e
                &&& key_index(bucket_view(self.buckets_of()[i]), e.key) == j
            } by {
            let t = bs[i];
            assert(t == bucket_view(self.buckets@[i]));
            assert(t[j] == entry_view(self.buckets@[i]@[j]));
            assert(has_key(t, t[j].key));
            let c = key_index(t, t[j].key);
            assert(t[c].key == t[j].key);
        }
        assert forall|k: Key| #[trigger] self.state().table.contains_key(k) implies has_key(
            bucket_view(self.buckets_of()[bucket_of(k)]),
            k,
        ) by {
            assert(bs[bucket_of(k)] == bucket_view(self.buckets@[bucket_of(k)]));
        }
    }
}

} // verus!
