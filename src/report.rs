//! The text of the result files, as bytes.
use vstd::prelude::*;
use crate::types::{DirSide, side_name};
use crate::paths::{join_path, render_path, path_view};
use crate::digest::{hex_upper, digest_hex, DIGEST_LEN};
use crate::merge::{
    Key,
    RecordView,
    MismatchView,
    Merger,
    BUCKETS,
    bucket_of,
    bucket_view,
    has_key,
    key_index,
    Tree,
    batch_of,
    merge_all,
    lemma_one_sided_file_unpaired,
    Mismatch,
    entry_view,
    mismatch_view,
};

verus! {

/// The ASCII bytes of a text made of ASCII characters.
pub open spec fn ascii(s: Seq<char>) -> Seq<u8> {
    s.map_values(|c: char| c as u8)
}

/// One line of `mismatched.txt`.
pub open spec fn mismatch_line(m: MismatchView) -> Seq<u8> {
    ascii("mismatch: "@) + join_path(m.key) + ascii(" - "@) + join_path(m.key) + ascii(" left: "@)
        + hex_upper(m.left) + ascii(" - right: "@) + hex_upper(m.right) + seq![10u8]
}

/// The content of `mismatched.txt`: one line per mismatch, in order.
pub open spec fn mismatch_text(ms: Seq<MismatchView>) -> Seq<u8>
    decreases ms.len(),
{
    if ms.len() == 0 {
        Seq::empty()
    } else {
        mismatch_text(ms.drop_last()) + mismatch_line(ms.last())
    }
}

/// Whether the side `missing` lacks the file with key `k`: an unpaired
/// entry of the other side has that key.
pub open spec fn lacks(table: Map<Key, RecordView>, missing: DirSide, k: Key) -> bool {
    table.contains_key(k) && table[k].side != missing
}

/// `keys` names every file that the side `missing` lacks, each exactly once.
pub open spec fn lists_missing(keys: Seq<Key>, table: Map<Key, RecordView>, missing: DirSide) -> bool {
    &&& keys.no_duplicates()
    &&& forall|k: Key| #[trigger] keys.contains(k) == lacks(table, missing, k)
}

/// One line of `missing-<side>.txt`.
pub open spec fn missing_line(missing: DirSide, k: Key) -> Seq<u8> {
    ascii("missing "@) + ascii(side_name(missing)) + ascii(": "@) + join_path(k) + seq![10u8]
}

/// The lines for a list of keys that the side `missing` lacks.
pub open spec fn missing_lines(keys: Seq<Key>, missing: DirSide) -> Seq<u8>
    decreases keys.len(),
{
    if keys.len() == 0 {
        Seq::empty()
    } else {
        missing_lines(keys.drop_last(), missing) + missing_line(missing, keys.last())
    }
}

/// The bytes of an ASCII literal.
fn literal_bytes(s: &str) -> (r: Vec<u8>)
    requires
        vstd::string::is_ascii(s),
    ensures
        r@ == ascii(s@),
{
    proof {
        broadcast use vstd::string::is_ascii_spec_bytes;
    }
    let v = s.as_bytes_vec();
    assert(v@ =~= ascii(s@));
    v
}

fn append_bytes(out: &mut Vec<u8>, b: Vec<u8>)
    ensures
        final(out)@ == old(out)@ + b@,
{
    let mut b = b;
    out.append(&mut b);
}

/// One line of `mismatched.txt`.
pub fn render_mismatch(m: &Mismatch) -> (r: Vec<u8>)
    requires
        m.left.hash@.len() == DIGEST_LEN,
        m.right.hash@.len() == DIGEST_LEN,
    ensures
        r@ == mismatch_line(mismatch_view(*m)),
{
    proof {
        reveal_strlit("mismatch: ");
        reveal_strlit(" - ");
        reveal_strlit(" left: ");
        reveal_strlit(" - right: ");
    }
    let mut out = literal_bytes("mismatch: ");
    append_bytes(&mut out, render_path(&m.key));
    append_bytes(&mut out, literal_bytes(" - "));
    append_bytes(&mut out, render_path(&m.key));
    append_bytes(&mut out, literal_bytes(" left: "));
    append_bytes(&mut out, digest_hex(&m.left.hash));
    append_bytes(&mut out, literal_bytes(" - right: "));
    append_bytes(&mut out, digest_hex(&m.right.hash));
    out.push(10u8);
    out
}

/// One line of `missing-<side>.txt`.
pub fn render_missing(missing: DirSide, key: &Vec<Vec<u8>>) -> (r: Vec<u8>)
    ensures
        r@ == missing_line(missing, path_view(key@)),
{
    proof {
        reveal_strlit("missing ");
        reveal_strlit(": ");
    }
    let mut out = literal_bytes("missing ");
    append_bytes(&mut out, literal_bytes(missing.as_str()));
    append_bytes(&mut out, literal_bytes(": "));
    append_bytes(&mut out, render_path(key));
    out.push(10u8);
    out
}

impl Merger {
    /// The content of `mismatched.txt`.
    pub fn mismatch_report(&self) -> (r: Vec<u8>)
        requires
            self.wf(),
        ensures
            r@ == mismatch_text(self.state().mismatches),
    {
        let ms = self.mismatched();
        let ghost mv = self.state().mismatches;
        let mut out: Vec<u8> = Vec::new();
        let mut i: usize = 0;
        while i < ms.len()
            invariant
                0 <= i <= ms.len(),
                ms@.map_values(|m: Mismatch| mismatch_view(m)) == mv,
                forall|j: int| 0 <= j < ms@.len() ==> (#[trigger] ms@[j]).left.hash@.len() == DIGEST_LEN
                    && ms@[j].right.hash@.len() == DIGEST_LEN,
                out@ == mismatch_text(mv.take(i as int)),
            decreases ms.len() - i,
        {
            assert(mv.take(i as int + 1).drop_last() == mv.take(i as int));
            assert(mv[i as int] == mismatch_view(ms@[i as int]));
            append_bytes(&mut out, render_mismatch(&ms[i]));
            i = i + 1;
        }
        assert(mv.take(ms.len() as int) == mv);
        out
    }

    /// The content of `missing-<missing>.txt`: one line for each file that
    /// the side `missing` lacks, in the order of the table's buckets.
    pub fn missing_report(&self, missing: DirSide) -> (r: Vec<u8>)
        requires
            self.wf(),
        ensures
            exists|keys: Seq<Key>|
                lists_missing(keys, self.state().table, missing) && r@ == missing_lines(keys, missing),
    {
        proof {
            self.lemma_buckets();
        }
        let ghost table = self.state().table;
        let bl = self.bucket_list();
        let ghost mut keys: Seq<Key> = Seq::empty();
        let mut out: Vec<u8> = Vec::new();
        let mut i: usize = 0;
        while i < bl.len()
            invariant
                0 <= i <= bl.len(),
                bl@ == self.buckets_of(),
                table == self.state().table,
                self.wf(),
                bl.len() == BUCKETS,
                forall|x: int, y: int|
                    0 <= x < bl@.len() && 0 <= y < bl@[x]@.len() ==> {
                        let e = entry_view(#[trigger] bl@[x]@[y]);
                        &&& bucket_of(e.key) == x
                        &&& table.contains_key(e.key)
                        &&& table[e.key] == e
                        &&& key_index(bucket_view(bl@[x]), e.key) == y
                    },
                forall|k: Key| #[trigger] table.contains_key(k) ==> has_key(bucket_view(bl@[bucket_of(k)]), k),
                forall|k: Key| table.contains_key(k) ==> 0 <= #[trigger] bucket_of(k) < BUCKETS,
                keys.no_duplicates(),
                forall|k: Key| #[trigger] keys.contains(k) == (lacks(table, missing, k) && bucket_of(k) < i),
                out@ == missing_lines(keys, missing),
            decreases bl.len() - i,
        {
            let bucket = &bl[i];
            let ghost t = bucket_view(*bucket);
            let mut j: usize = 0;
            while j < bucket.len()
                invariant
                    0 <= i < bl.len(),
                    0 <= j <= bucket.len(),
                    *bucket == bl@[i as int],
                    t == bucket_view(*bucket),
                    forall|x: int, y: int|
                        0 <= x < bl@.len() && 0 <= y < bl@[x]@.len() ==> {
                            let e = entry_view(#[trigger] bl@[x]@[y]);
                            &&& bucket_of(e.key) == x
                            &&& table.contains_key(e.key)
                            &&& table[e.key] == e
                            &&& key_index(bucket_view(bl@[x]), e.key) == y
                        },
                    forall|k: Key| #[trigger] table.contains_key(k) ==> has_key(bucket_view(bl@[bucket_of(k)]), k),
                    keys.no_duplicates(),
                    forall|k: Key| #[trigger] keys.contains(k) == (lacks(table, missing, k) && (bucket_of(k) < i || (
                        bucket_of(k) == i && key_index(t, k) < j))),
                    out@ == missing_lines(keys, missing),
                decreases bucket.len() - j,
            {
                let ghost e = entry_view(bucket@[j as int]);
                assert(e == entry_view(bl@[i as int]@[j as int]));
                assert(t[j as int] == e);
                let ghost old_keys = keys;
                if bucket[j].record.side != missing {
                    proof {
                        keys = keys.push(e.key);
                        assert(keys.drop_last() == old_keys);
                        assert(!old_keys.contains(e.key));
                        assert forall|k: Key| #[trigger] keys.contains(k) == (old_keys.contains(k) || k == e.key) by {
                            if old_keys.contains(k) {
                                let x = choose|x: int| 0 <= x < old_keys.len() && old_keys[x] == k;
                                assert(keys[x] == k);
                            }
                            if keys.contains(k) {
                                let x = choose|x: int| 0 <= x < keys.len() && keys[x] == k;
                                if x < old_keys.len() {
                                    assert(old_keys[x] == k);
                                }
                            }
                            assert(keys[old_keys.len() as int] == e.key);
                        }
                    }
                    append_bytes(&mut out, render_missing(missing, &bucket[j].key));
                }
                assert forall|k: Key| #[trigger] keys.contains(k) == (lacks(table, missing, k) && (bucket_of(k) < i || (
                    bucket_of(k) == i && key_index(t, k) < j + 1))) by {
                    if lacks(table, missing, k) && bucket_of(k) == i && key_index(t, k) == j {
                        assert(has_key(t, k));
                        assert(t[key_index(t, k)].key == k);
                    }
                }
                j = j + 1;
            }
            assert forall|k: Key| #[trigger] keys.contains(k) == (lacks(table, missing, k) && bucket_of(k) < i + 1) by {
                if lacks(table, missing, k) && bucket_of(k) == i {
                    assert(has_key(t, k));
                }
            }
            i = i + 1;
        }
        assert(lists_missing(keys, table, missing));
        out
    }
}

/// A file present only under the left root is named exactly once in any
/// listing of what the right side lacks, and in none of what the left side
/// lacks; and the other way round for a file present only under the right
/// root.
pub proof fn lemma_one_sided_file_listed_once(
    rs: Seq<RecordView>,
    left: Tree,
    right: Tree,
    k: Key,
    side: DirSide,
    other_lacks: Seq<Key>,
    side_lacks: Seq<Key>,
)
    requires
        batch_of(rs, left, right),
        side == DirSide::Left ==> left.contains_key(k) && !right.contains_key(k),
        side == DirSide::Right ==> right.contains_key(k) && !left.contains_key(k),
        lists_missing(other_lacks, merge_all(rs).table, if side == DirSide::Left { DirSide::Right } else { DirSide::Left }),
        lists_missing(side_lacks, merge_all(rs).table, side),
    ensures
        other_lacks.contains(k),
        forall|a: int, b: int|
            0 <= a < other_lacks.len() && 0 <= b < other_lacks.len() && (#[trigger] other_lacks[a]) == k
                && (#[trigger] other_lacks[b]) == k ==> a == b,
        !side_lacks.contains(k),
{
    lemma_one_sided_file_unpaired(rs, left, right, k, side);
    let missing = if side == DirSide::Left { DirSide::Right } else { DirSide::Left };
    assert(lacks(merge_all(rs).table, missing, k));
    assert(!lacks(merge_all(rs).table, side, k));
}

} // verus!
