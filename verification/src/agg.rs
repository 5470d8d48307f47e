//! Grouping a per-file metric by extension: the aggregation pass.
//!
//! Every file with an extension contributes its quantity — one, its byte
//! size, or its line count, by the chosen mode — to the running total of its
//! extension. Files without an extension contribute to no total.

use vstd::prelude::*;
use crate::extension::{ext_of, extension_of};
use crate::lines::{count_lines, line_count_of};
use crate::table::{
    keys_sorted, lemma_last_key_fresh, lemma_map_of_finite, lemma_map_of_index, map_of, rows_of,
    Table,
};

verus! {

/// Which per-file quantity is accumulated.
#[derive(Clone, Copy, PartialEq, Eq, Structural, Debug)]
pub enum MetricMode {
    /// Each file counts as one.
    FileCount,
    /// Each file counts as its size on disk, in bytes.
    ByteSize,
    /// Each file counts as its number of newline-delimited lines.
    LineCount,
}

/// One discovered file, as plain data: its name (the last path segment),
/// its on-disk size, and its content. The content matters only under
/// `LineCount` and may be left empty otherwise.
pub struct FileRecord {
    pub name: String,
    pub size: u64,
    pub content: Vec<u8>,
}

/// The quantity a file contributes under `mode`.
pub open spec fn quantity(r: FileRecord, mode: MetricMode) -> int {
    match mode {
        MetricMode::FileCount => 1,
        MetricMode::ByteSize => r.size as int,
        MetricMode::LineCount => line_count_of(r.content@) as int,
    }
}

/// Folding one file into the totals: a file with an extension adds its
/// quantity to that key, a file without one changes nothing.
pub open spec fn fold_step(m: Map<Seq<char>, int>, r: FileRecord, mode: MetricMode) -> Map<
    Seq<char>,
    int,
> {
    match ext_of(r.name@) {
        Option::None => m,
        Option::Some(k) => m.insert(
            k,
            (if m.contains_key(k) {
                m[k]
            } else {
                0
            }) + quantity(r, mode),
        ),
    }
}

/// The accumulated totals of a file sequence: for each extension that occurs,
/// the sum of the quantities of the files that carry it.
pub open spec fn totals_of(recs: Seq<FileRecord>, mode: MetricMode) -> Map<Seq<char>, int>
    decreases recs.len(),
{
    if recs.len() == 0 {
        Map::empty()
    } else {
        fold_step(totals_of(recs.drop_last(), mode), recs.last(), mode)
    }
}

/// Every total fits the table's unsigned word.
pub open spec fn fits(m: Map<Seq<char>, int>) -> bool {
    forall|k: Seq<char>| m.contains_key(k) ==> m[k] <= u64::MAX
}

/// The table carries exactly the totals of `m`.
pub open spec fn holds_totals(t: Table, m: Map<Seq<char>, int>) -> bool {
    &&& t@.dom() =~= m.dom()
    &&& forall|k: Seq<char>| m.contains_key(k) ==> t@[k] == m[k]
}

/// A key has a total exactly when some file carries it as its extension:
/// files without an extension never feed a key.
pub proof fn lemma_totals_keys(recs: Seq<FileRecord>, mode: MetricMode, k: Seq<char>)
    ensures
        totals_of(recs, mode).contains_key(k) <==> exists|i: int|
            0 <= i < recs.len() && ext_of(recs[i].name@) == Some(k),
    decreases recs.len(),
{
    if recs.len() > 0 {
        lemma_totals_keys(recs.drop_last(), mode, k);
        if totals_of(recs, mode).contains_key(k) && ext_of(recs.last().name@) != Some(k) {
            let i = choose|i: int|
                0 <= i < recs.len() - 1 && ext_of(recs.drop_last()[i].name@) == Some(k);
            assert(recs[i] == recs.drop_last()[i]);
        }
        if exists|i: int| 0 <= i < recs.len() && ext_of(recs[i].name@) == Some(k) {
            let i = choose|i: int| 0 <= i < recs.len() && ext_of(recs[i].name@) == Some(k);
            if i < recs.len() - 1 {
                assert(recs.drop_last()[i] == recs[i]);
            }
        }
    }
}

/// Quantities are never negative.
pub proof fn lemma_quantity_nonneg(r: FileRecord, mode: MetricMode)
    ensures
        quantity(r, mode) >= 0,
{
}

/// A total only grows as further files are folded in: the totals of a prefix
/// are bounded by the totals of the whole sequence.
pub proof fn lemma_totals_prefix(recs: Seq<FileRecord>, mode: MetricMode, i: int)
    requires
        0 <= i <= recs.len(),
    ensures
        forall|k: Seq<char>| totals_of(recs.take(i), mode).contains_key(k) ==> {
            &&& totals_of(recs, mode).contains_key(k)
            &&& totals_of(recs.take(i), mode)[k] <= totals_of(recs, mode)[k]
        },
    decreases recs.len() - i,
{
    if i == recs.len() {
        assert(recs.take(i) =~= recs);
    } else {
        lemma_totals_prefix(recs, mode, i + 1);
        assert(recs.take(i + 1).drop_last() =~= recs.take(i));
        assert(recs.take(i + 1).last() == recs[i]);
        lemma_quantity_nonneg(recs[i], mode);
        assert forall|k: Seq<char>| totals_of(recs.take(i), mode).contains_key(k) implies {
            &&& totals_of(recs, mode).contains_key(k)
            &&& totals_of(recs.take(i), mode)[k] <= totals_of(recs, mode)[k]
        } by {
            assert(totals_of(recs.take(i + 1), mode).contains_key(k));
            assert(totals_of(recs.take(i), mode)[k] <= totals_of(recs.take(i + 1), mode)[k]);
        }
    }
}

/// How many files carry any extension at all.
pub open spec fn count_with_ext(recs: Seq<FileRecord>) -> int
    decreases recs.len(),
{
    if recs.len() == 0 {
        0
    } else {
        count_with_ext(recs.drop_last()) + (if ext_of(recs.last().name@) is Some {
            1int
        } else {
            0int
        })
    }
}

/// The summed on-disk sizes of the files whose extension is `e`.
pub open spec fn sum_sizes_for(recs: Seq<FileRecord>, e: Seq<char>) -> int
    decreases recs.len(),
{
    if recs.len() == 0 {
        0
    } else {
        sum_sizes_for(recs.drop_last(), e) + (if ext_of(recs.last().name@) == Some(e) {
            recs.last().size as int
        } else {
            0int
        })
    }
}

/// The sum of all totals in `m`.
pub open spec fn map_sum(m: Map<Seq<char>, int>) -> int
    decreases m.dom().len() when m.dom().finite()
{
    if m.dom().finite() && m.dom().len() > 0 {
        let k = m.dom().choose();
        m[k] + map_sum(m.remove(k))
    } else {
        0
    }
}

/// The totals have finitely many keys.
pub proof fn lemma_totals_finite(recs: Seq<FileRecord>, mode: MetricMode)
    ensures
        totals_of(recs, mode).dom().finite(),
    decreases recs.len(),
{
    if recs.len() > 0 {
        lemma_totals_finite(recs.drop_last(), mode);
    }
}

/// Taking one key out of the sum leaves the sum of the rest.
proof fn lemma_map_sum_remove(m: Map<Seq<char>, int>, k: Seq<char>)
    requires
        m.dom().finite(),
        m.contains_key(k),
    ensures
        map_sum(m) == m[k] + map_sum(m.remove(k)),
    decreases m.dom().len(),
{
    let c = m.dom().choose();
    assert(m.dom().contains(k));
    assert(m.dom().len() != 0);
    if c != k {
        assert(m.dom().contains(c));
        let mc = m.remove(c);
        let mk = m.remove(k);
        assert(mc.dom() == m.dom().remove(c));
        assert(mk.dom() == m.dom().remove(k));
        lemma_map_sum_remove(mc, k);
        lemma_map_sum_remove(mk, c);
        assert(mc.remove(k) =~= mk.remove(c));
    }
}

/// What writing one key does to the sum: the new total comes in, the old
/// total of that key goes out.
proof fn lemma_map_sum_insert(m: Map<Seq<char>, int>, k: Seq<char>, v: int)
    requires
        m.dom().finite(),
    ensures
        map_sum(m.insert(k, v)) == map_sum(m) + v - (if m.contains_key(k) {
            m[k]
        } else {
            0
        }),
{
    let mi = m.insert(k, v);
    assert(mi.dom() == m.dom().insert(k));
    assert(mi.contains_key(k));
    lemma_map_sum_remove(mi, k);
    if m.contains_key(k) {
        assert(mi.remove(k) =~= m.remove(k));
        lemma_map_sum_remove(m, k);
    } else {
        assert(mi.remove(k) =~= m);
    }
}

/// Counting files: the totals under `FileCount`, summed over every key, are
/// exactly the number of files that carry an extension.
pub proof fn lemma_file_count_sum(recs: Seq<FileRecord>)
    ensures
        map_sum(totals_of(recs, MetricMode::FileCount)) == count_with_ext(recs),
    decreases recs.len(),
{
    if recs.len() > 0 {
        lemma_file_count_sum(recs.drop_last());
        lemma_totals_finite(recs.drop_last(), MetricMode::FileCount);
        let m = totals_of(recs.drop_last(), MetricMode::FileCount);
        match ext_of(recs.last().name@) {
            Option::None => {},
            Option::Some(k) => {
                lemma_map_sum_insert(
                    m,
                    k,
                    (if m.contains_key(k) {
                        m[k]
                    } else {
                        0
                    }) + 1,
                );
            },
        }
    }
}

/// Summing sizes: the total under `ByteSize` for an extension is exactly the
/// summed on-disk sizes of the files that carry it; an extension that no
/// file carries has no total and an empty size sum.
pub proof fn lemma_byte_size_total(recs: Seq<FileRecord>, e: Seq<char>)
    ensures
        totals_of(recs, MetricMode::ByteSize).contains_key(e) ==> totals_of(
            recs,
            MetricMode::ByteSize,
        )[e] == sum_sizes_for(recs, e),
        !totals_of(recs, MetricMode::ByteSize).contains_key(e) ==> sum_sizes_for(recs, e) == 0,
    decreases recs.len(),
{
    if recs.len() > 0 {
        lemma_byte_size_total(recs.drop_last(), e);
    }
}

/// The values of a table's rows, summed.
pub open spec fn sum_rows(rows: Seq<(Seq<char>, u64)>) -> int
    decreases rows.len(),
{
    if rows.len() == 0 {
        0
    } else {
        sum_rows(rows.drop_last()) + rows.last().1
    }
}

/// The values of rows in ascending key order sum to the sum of the mapping
/// they carry.
proof fn lemma_sum_rows_matches(s: Seq<(String, u64)>, m: Map<Seq<char>, int>)
    requires
        keys_sorted(s),
        m.dom() =~= map_of(s).dom(),
        forall|k: Seq<char>| m.contains_key(k) ==> map_of(s)[k] == m[k],
    ensures
        sum_rows(rows_of(s)) == map_sum(m),
    decreases s.len(),
{
    lemma_map_of_finite(s);
    if s.len() == 0 {
        assert(m.dom().len() == 0);
        assert(rows_of(s).len() == 0);
    } else {
        let l = s.last().0@;
        assert(map_of(s).contains_key(l));
        assert(m.contains_key(l));
        lemma_map_of_index(s, s.len() - 1);
        lemma_map_sum_remove(m, l);
        lemma_last_key_fresh(s);
        assert(keys_sorted(s.drop_last())) by {
            assert(forall|x: int, y: int|
                0 <= x < y < s.len() - 1 ==> s.drop_last()[x] == s[x] && s.drop_last()[y] == s[y]);
        }
        assert(m.remove(l).dom() =~= map_of(s.drop_last()).dom());
        assert(forall|k: Seq<char>|
            m.remove(l).contains_key(k) ==> map_of(s.drop_last())[k] == m.remove(l)[k]);
        lemma_sum_rows_matches(s.drop_last(), m.remove(l));
        assert(rows_of(s).drop_last() =~= rows_of(s.drop_last())) by {
            assert(forall|x: int| 0 <= x < s.len() - 1 ==> s.drop_last()[x] == s[x]);
        }
        assert(rows_of(s).last() == (l, s.last().1));
        assert(rows_of(s).len() == s.len());
    }
}

/// Counting files, read off the output: the values of a `FileCount` table's
/// rows sum to the number of files that carry an extension.
pub proof fn lemma_table_file_count_sum(t: Table, recs: Seq<FileRecord>)
    requires
        t.wf(),
        holds_totals(t, totals_of(recs, MetricMode::FileCount)),
    ensures
        sum_rows(t.row_view()) == count_with_ext(recs),
{
    lemma_file_count_sum(recs);
    lemma_sum_rows_matches(t.entries@, totals_of(recs, MetricMode::FileCount));
}

/// Folding two files into the totals commutes: addition per key does not
/// care which file comes first.
proof fn lemma_fold_step_commute(m: Map<Seq<char>, int>, a: FileRecord, b: FileRecord, mode: MetricMode)
    ensures
        fold_step(fold_step(m, a, mode), b, mode) == fold_step(fold_step(m, b, mode), a, mode),
{
    match (ext_of(a.name@), ext_of(b.name@)) {
        (Option::Some(ka), Option::Some(kb)) => {
            assert(fold_step(fold_step(m, a, mode), b, mode) =~= fold_step(
                fold_step(m, b, mode),
                a,
                mode,
            ));
        },
        _ => {},
    }
}

/// Moving one file to the end of the sequence leaves the totals unchanged.
proof fn lemma_totals_move_to_end(s: Seq<FileRecord>, j: int, mode: MetricMode)
    requires
        0 <= j < s.len(),
    ensures
        totals_of(s, mode) == totals_of(s.remove(j).push(s[j]), mode),
    decreases s.len(),
{
    if j == s.len() - 1 {
        assert(s.remove(j).push(s[j]) =~= s);
    } else {
        let u = s.remove(j).push(s[j]);
        let w = s.drop_last().remove(j);
        let t = w.push(s[j]);
        assert(s.remove(j).last() == s.last());
        assert(s.remove(j).drop_last() =~= w);
        assert(u.last() == s[j]);
        assert(u.drop_last() =~= s.remove(j));
        assert(t.drop_last() =~= w);
        assert(t.last() == s[j]);
        lemma_totals_move_to_end(s.drop_last(), j, mode);
        assert(s.drop_last()[j] == s[j]);
        lemma_fold_step_commute(totals_of(w, mode), s[j], s.last(), mode);
        assert(totals_of(s.remove(j), mode) == fold_step(totals_of(w, mode), s.last(), mode));
        assert(totals_of(u, mode) == fold_step(totals_of(s.remove(j), mode), s[j], mode));
        assert(totals_of(u, mode) == fold_step(
            fold_step(totals_of(w, mode), s.last(), mode),
            s[j],
            mode,
        ));
        assert(totals_of(s, mode) == fold_step(totals_of(t, mode), s.last(), mode));
    }
}

/// Order independence: the totals depend only on which files were found,
/// never on the order the traversal delivered them in.
pub proof fn lemma_totals_order_independent(r1: Seq<FileRecord>, r2: Seq<FileRecord>, mode: MetricMode)
    requires
        r1.to_multiset() == r2.to_multiset(),
    ensures
        totals_of(r1, mode) == totals_of(r2, mode),
    decreases r1.len(),
{
    broadcast use vstd::seq_lib::group_to_multiset_ensures;

    vstd::seq_lib::to_multiset_len(r1);
    vstd::seq_lib::to_multiset_len(r2);
    if r1.len() == 0 {
        assert(r2.len() == 0);
    } else {
        let x = r1.last();
        assert(r1[r1.len() - 1] == x);
        assert(r1.contains(x));
        assert(r2.to_multiset().count(x) > 0);
        assert(r2.contains(x));
        let j = choose|j: int| 0 <= j < r2.len() && r2[j] == x;
        lemma_totals_move_to_end(r2, j, mode);
        let r2m = r2.remove(j);
        assert(r1 =~= r1.drop_last().push(x));
        assert(r1.to_multiset() == r1.drop_last().to_multiset().insert(x));
        assert(r2m.to_multiset() == r2.to_multiset().remove(x));
        assert(r1.drop_last().to_multiset() =~= r1.to_multiset().remove(x));
        lemma_totals_order_independent(r1.drop_last(), r2m, mode);
        assert(r2m.push(x).drop_last() =~= r2m);
        assert(r2m.push(x).last() == x);
        assert(totals_of(r2, mode) == fold_step(totals_of(r2m, mode), x, mode));
        assert(totals_of(r1, mode) == fold_step(totals_of(r1.drop_last(), mode), x, mode));
    }
}

/// Determinism of the whole pass: two tables that hold the totals of the
/// same files, however the two traversals ordered them, show exactly the
/// same rows.
pub proof fn lemma_output_order_independent(
    t1: Table,
    t2: Table,
    r1: Seq<FileRecord>,
    r2: Seq<FileRecord>,
    mode: MetricMode,
)
    requires
        t1.wf(),
        t2.wf(),
        holds_totals(t1, totals_of(r1, mode)),
        holds_totals(t2, totals_of(r2, mode)),
        r1.to_multiset() == r2.to_multiset(),
    ensures
        t1.row_view() == t2.row_view(),
{
    lemma_totals_order_independent(r1, r2, mode);
    let m = totals_of(r1, mode);
    assert(t1@.dom() == m.dom());
    assert(t2@.dom() == m.dom());
    assert forall|k: Seq<char>| t1@.dom().contains(k) implies t1@[k] == t2@[k] by {
        assert(m.contains_key(k));
        assert(totals_of(r2, mode).contains_key(k));
        assert(t1@[k] == m[k]);
        assert(t2@[k] == totals_of(r2, mode)[k]);
        assert(totals_of(r2, mode)[k] == m[k]);
    }
    assert(t1@ =~= t2@);
    crate::table::lemma_output_determined(t1, t2);
}

/// The mode the command-line flags select: file count first, then byte
/// size (the flag named for characters counts bytes), then line count; byte
/// size where no flag is given.
pub fn mode_from_flags(file_count: bool, char_count: bool, line_count: bool) -> (m: MetricMode)
    ensures
        m == (if file_count {
            MetricMode::FileCount
        } else if char_count {
            MetricMode::ByteSize
        } else if line_count {
            MetricMode::LineCount
        } else {
            MetricMode::ByteSize
        }),
{
    if file_count {
        MetricMode::FileCount
    } else if char_count {
        MetricMode::ByteSize
    } else if line_count {
        MetricMode::LineCount
    } else {
        MetricMode::ByteSize
    }
}

/// Folds the files into a table of per-extension totals. Returns `None`
/// exactly where some extension's total would exceed `u64::MAX`; the table
/// otherwise carries the totals of the whole sequence, sorted by key.
pub fn aggregate(records: &Vec<FileRecord>, mode: MetricMode) -> (r: Option<Table>)
    ensures
        r is Some <==> fits(totals_of(records@, mode)),
        match r {
            Some(t) => t.wf() && holds_totals(t, totals_of(records@, mode)),
            None => true,
        },
{
    let len = records.len();
    let mut t = Table::new();
    let mut i: usize = 0;
    while i < len
        invariant
            len == records@.len(),
            i <= len,
            t.wf(),
            holds_totals(t, totals_of(records@.take(i as int), mode)),
        decreases len - i,
    {
        proof {
            assert(records@.take(i + 1).drop_last() =~= records@.take(i as int));
            assert(records@.take(i + 1).last() == records@[i as int]);
        }
        let rec = &records[i];
        match extension_of(rec.name.as_str()) {
            Option::None => {},
            Option::Some(ext) => {
                let q: u64 = match mode {
                    MetricMode::FileCount => 1,
                    MetricMode::ByteSize => rec.size,
                    MetricMode::LineCount => count_lines(&rec.content),
                };
                let ok = t.add(ext.as_str(), q);
                if !ok {
                    proof {
                        assert(totals_of(records@.take(i + 1), mode).contains_key(ext@));
                        assert(totals_of(records@.take(i + 1), mode)[ext@] > u64::MAX);
                        lemma_totals_prefix(records@, mode, i + 1);
                        assert(totals_of(records@, mode).contains_key(ext@));
                        assert(totals_of(records@, mode)[ext@] > u64::MAX);
                        assert(!fits(totals_of(records@, mode)));
                    }
                    return None;
                }
            },
        }
        i = i + 1;
    }
    proof {
        assert(records@.take(len as int) =~= records@);
    }
    Some(t)
}

} // verus!
