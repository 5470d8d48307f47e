//! The accumulation table: extension keys mapped to running totals, kept in
//! ascending key order so that the output rows are sorted.

use vstd::prelude::*;
use crate::lex::{lex_lt, lemma_lex_transitive, lemma_lex_trichotomy, compare_keys, KeyOrder};
use crate::render::{format_name, format_size, name_display, size_display};

verus! {

/// The keys of `s` are strictly ascending.
pub open spec fn keys_sorted(s: Seq<(String, u64)>) -> bool {
    forall|i: int, j: int| 0 <= i < j < s.len() ==> lex_lt(#[trigger] s[i].0@, #[trigger] s[j].0@)
}

/// The mapping that a sequence of key/total pairs stands for; a repeated key
/// keeps its last pair.
pub open spec fn map_of(s: Seq<(String, u64)>) -> Map<Seq<char>, u64>
    decreases s.len(),
{
    if s.len() == 0 {
        Map::empty()
    } else {
        map_of(s.drop_last()).insert(s.last().0@, s.last().1)
    }
}

/// The pairs of `s` as plain values.
pub open spec fn rows_of(s: Seq<(String, u64)>) -> Seq<(Seq<char>, u64)> {
    s.map(|i: int, kv: (String, u64)| (kv.0@, kv.1))
}

/// A key is in the mapping exactly when some pair holds it.
pub proof fn lemma_map_of_contains(s: Seq<(String, u64)>, k: Seq<char>)
    ensures
        map_of(s).contains_key(k) <==> exists|i: int| 0 <= i < s.len() && s[i].0@ == k,
    decreases s.len(),
{
    if s.len() > 0 {
        lemma_map_of_contains(s.drop_last(), k);
        if map_of(s).contains_key(k) && s.last().0@ != k {
            let i = choose|i: int| 0 <= i < s.len() - 1 && s.drop_last()[i].0@ == k;
            assert(s[i].0@ == k);
        }
        if exists|i: int| 0 <= i < s.len() && s[i].0@ == k {
            let i = choose|i: int| 0 <= i < s.len() && s[i].0@ == k;
            if i < s.len() - 1 {
                assert(s.drop_last()[i].0@ == k);
            }
        }
    }
}

/// With keys strictly ascending, each pair's key maps to that pair's total.
pub proof fn lemma_map_of_index(s: Seq<(String, u64)>, i: int)
    requires
        keys_sorted(s),
        0 <= i < s.len(),
    ensures
        map_of(s).contains_key(s[i].0@),
        map_of(s)[s[i].0@] == s[i].1,
    decreases s.len(),
{
    lemma_map_of_contains(s, s[i].0@);
    if i < s.len() - 1 {
        lemma_lex_trichotomy(s[i].0@, s.last().0@);
        assert(keys_sorted(s.drop_last())) by {
            assert(forall|x: int, y: int|
                0 <= x < y < s.len() - 1 ==> s.drop_last()[x] == s[x] && s.drop_last()[y] == s[y]);
        }
        assert(s.drop_last()[i] == s[i]);
        lemma_map_of_index(s.drop_last(), i);
    }
}

/// The accumulation table: per extension, a running total, with its rows in
/// strictly ascending key order.
pub struct Table {
    /// The key/total pairs, sorted by key.
    pub entries: Vec<(String, u64)>,
}

impl View for Table {
    type V = Map<Seq<char>, u64>;

    open spec fn view(&self) -> Map<Seq<char>, u64> {
        map_of(self.entries@)
    }
}

impl Table {
    /// The table's rows are in strictly ascending key order.
    pub open spec fn wf(&self) -> bool {
        keys_sorted(self.entries@)
    }

    /// The table's rows as plain values, in order.
    pub open spec fn row_view(&self) -> Seq<(Seq<char>, u64)> {
        rows_of(self.entries@)
    }

    /// Creates an empty table.
    pub fn new() -> (t: Table)
        ensures
            t.wf(),
            t@ == Map::<Seq<char>, u64>::empty(),
            t.row_view() =~= Seq::<(Seq<char>, u64)>::empty(),
    {
        Table { entries: Vec::new() }
    }

    /// The number of distinct keys in the table.
    pub fn len(&self) -> (n: usize)
        ensures
            n == self.row_view().len(),
    {
        self.entries.len()
    }

    /// Looks a key's total up.
    pub fn get(&self, key: &str) -> (r: Option<u64>)
        requires
            self.wf(),
        ensures
            match r {
                Some(v) => self@.contains_key(key@) && self@[key@] == v,
                None => !self@.contains_key(key@),
            },
    {
        let len = self.entries.len();
        let mut i: usize = 0;
        while i < len
            invariant
                self.wf(),
                len == self.entries@.len(),
                i <= len,
                forall|j: int| 0 <= j < i ==> (#[trigger] self.entries@[j].0@) != key@,
            decreases len - i,
        {
            if matches!(compare_keys(self.entries[i].0.as_str(), key), KeyOrder::Equal) {
                proof {
                    lemma_map_of_index(self.entries@, i as int);
                }
                return Some(self.entries[i].1);
            }
            i = i + 1;
        }
        proof {
            lemma_map_of_contains(self.entries@, key@);
        }
        None
    }

    /// Adds `qty` to the total under `key`, starting a new row where the key
    /// is new. Returns `false`, and leaves the table as it was, where the
    /// total would exceed `u64::MAX`.
    pub fn add(&mut self, key: &str, qty: u64) -> (ok: bool)
        requires
            old(self).wf(),
        ensures
            final(self).wf(),
            ok <==> !(old(self)@.contains_key(key@) && old(self)@[key@] + qty > u64::MAX),
            ok ==> final(self)@ == old(self)@.insert(
                key@,
                (if old(self)@.contains_key(key@) {
                    old(self)@[key@] + qty
                } else {
                    qty as int
                }) as u64,
            ),
            !ok ==> *final(self) == *old(self),
    {
        let len = self.entries.len();
        let mut p: usize = 0;
        while p < len
            invariant
                self == old(self),
                self.wf(),
                len == self.entries@.len(),
                p <= len,
                forall|j: int| 0 <= j < p ==> lex_lt(#[trigger] self.entries@[j].0@, key@),
            decreases len - p,
        {
            match compare_keys(self.entries[p].0.as_str(), key) {
                KeyOrder::Less => {
                    p = p + 1;
                },
                KeyOrder::Equal => {
                    let cur = self.entries[p].1;
                    proof {
                        lemma_map_of_index(self.entries@, p as int);
                    }
                    if qty > u64::MAX - cur {
                        return false;
                    }
                    self.entries[p] = (key.to_owned(), cur + qty);
                    proof {
                        lemma_map_of_update(old(self).entries@, p as int, self.entries@[p as int]);
                        assert(self.entries@ =~= old(self).entries@.update(
                            p as int,
                            self.entries@[p as int],
                        ));
                        assert(keys_sorted(self.entries@)) by {
                            assert(forall|i: int|
                                0 <= i < self.entries@.len() && i != p ==> self.entries@[i] == old(
                                    self,
                                ).entries@[i]);
                        }
                    }
                    return true;
                },
                KeyOrder::Greater => {
                    proof {
                        lemma_map_of_contains(old(self).entries@, key@);
                        lemma_key_absent(old(self).entries@, key@, p as int);
                    }
                    self.entries.insert(p, (key.to_owned(), qty));
                    proof {
                        lemma_map_of_insert(old(self).entries@, p as int, self.entries@[p as int]);
                        lemma_sorted_insert(old(self).entries@, p as int, self.entries@[p as int]);
                    }
                    return true;
                },
            }
        }
        proof {
            lemma_map_of_contains(old(self).entries@, key@);
            lemma_key_absent(old(self).entries@, key@, len as int);
        }
        self.entries.push((key.to_owned(), qty));
        proof {
            assert(self.entries@ =~= old(self).entries@.insert(
                len as int,
                self.entries@[len as int],
            ));
            lemma_map_of_insert(old(self).entries@, len as int, self.entries@[len as int]);
            lemma_sorted_insert(old(self).entries@, len as int, self.entries@[len as int]);
        }
        true
    }

    /// Renders the table: one row per key in ascending order, the dotted
    /// extension beside its formatted total.
    pub fn rows(&self) -> (r: Vec<(String, String)>)
        ensures
            r@.len() == self.row_view().len(),
            forall|i: int|
                0 <= i < r@.len() ==> (#[trigger] r@[i]).0@ == name_display(self.row_view()[i].0)
                    && r@[i].1@ == size_display(self.row_view()[i].1 as int),
    {
        let len = self.entries.len();
        let mut r: Vec<(String, String)> = Vec::new();
        let mut i: usize = 0;
        while i < len
            invariant
                len == self.entries@.len(),
                i <= len,
                r@.len() == i,
                forall|j: int|
                    0 <= j < i ==> (#[trigger] r@[j]).0@ == name_display(self.row_view()[j].0)
                        && r@[j].1@ == size_display(self.row_view()[j].1 as int),
            decreases len - i,
        {
            let name = format_name(self.entries[i].0.as_str());
            let size = format_size(self.entries[i].1);
            r.push((name, size));
            i = i + 1;
        }
        r
    }
}

/// The mapping of a finite sequence has finitely many keys.
pub proof fn lemma_map_of_finite(s: Seq<(String, u64)>)
    ensures
        map_of(s).dom().finite(),
    decreases s.len(),
{
    if s.len() > 0 {
        lemma_map_of_finite(s.drop_last());
    }
}

/// With keys strictly ascending, no earlier pair carries the last key.
pub(crate) proof fn lemma_last_key_fresh(s: Seq<(String, u64)>)
    requires
        keys_sorted(s),
        s.len() > 0,
    ensures
        !map_of(s.drop_last()).contains_key(s.last().0@),
        map_of(s.drop_last()) == map_of(s).remove(s.last().0@),
{
    let l = s.last().0@;
    lemma_map_of_contains(s.drop_last(), l);
    if map_of(s.drop_last()).contains_key(l) {
        let i = choose|i: int| 0 <= i < s.len() - 1 && s.drop_last()[i].0@ == l;
        assert(s[i] == s.drop_last()[i]);
        assert(lex_lt(s[i].0@, l));
        lemma_lex_trichotomy(s[i].0@, l);
    }
    assert(map_of(s.drop_last()) =~= map_of(s).remove(l));
}

/// Determinism of the output: two tables in ascending key order that carry
/// the same mapping show exactly the same rows, whatever order their
/// entries were folded in.
pub proof fn lemma_rows_determined(s1: Seq<(String, u64)>, s2: Seq<(String, u64)>)
    requires
        keys_sorted(s1),
        keys_sorted(s2),
        map_of(s1) == map_of(s2),
    ensures
        rows_of(s1) == rows_of(s2),
    decreases s1.len(),
{
    if s1.len() == 0 {
        if s2.len() > 0 {
            assert(map_of(s2).contains_key(s2.last().0@));
        }
        assert(rows_of(s1) =~= rows_of(s2));
    } else {
        assert(map_of(s1).contains_key(s1.last().0@));
        if s2.len() == 0 {
            assert(false);
        }
        let l1 = s1.last().0@;
        let l2 = s2.last().0@;
        lemma_map_of_contains(s2, l1);
        let i = choose|i: int| 0 <= i < s2.len() && s2[i].0@ == l1;
        if i < s2.len() - 1 {
            assert(lex_lt(s2[i].0@, l2));
        }
        assert(map_of(s2).contains_key(l2));
        lemma_map_of_contains(s1, l2);
        let j = choose|j: int| 0 <= j < s1.len() && s1[j].0@ == l2;
        if j < s1.len() - 1 {
            assert(lex_lt(s1[j].0@, l1));
        }
        if l1 != l2 {
            lemma_lex_trichotomy(l1, l2);
            assert(false);
        }
        lemma_map_of_index(s1, s1.len() - 1);
        lemma_map_of_index(s2, s2.len() - 1);
        assert(s1.last().1 == s2.last().1);
        lemma_last_key_fresh(s1);
        lemma_last_key_fresh(s2);
        assert(keys_sorted(s1.drop_last())) by {
            assert(forall|x: int, y: int|
                0 <= x < y < s1.len() - 1 ==> s1.drop_last()[x] == s1[x] && s1.drop_last()[y]
                    == s1[y]);
        }
        assert(keys_sorted(s2.drop_last())) by {
            assert(forall|x: int, y: int|
                0 <= x < y < s2.len() - 1 ==> s2.drop_last()[x] == s2[x] && s2.drop_last()[y]
                    == s2[y]);
        }
        lemma_rows_determined(s1.drop_last(), s2.drop_last());
        assert(rows_of(s1) =~= rows_of(s1.drop_last()).push((s1.last().0@, s1.last().1))) by {
            assert(forall|x: int|
                0 <= x < s1.len() - 1 ==> s1.drop_last()[x] == s1[x]);
        }
        assert(rows_of(s2) =~= rows_of(s2.drop_last()).push((s2.last().0@, s2.last().1))) by {
            assert(forall|x: int|
                0 <= x < s2.len() - 1 ==> s2.drop_last()[x] == s2[x]);
        }
    }
}

/// Determinism of the output, at the table: two well-formed tables that
/// carry the same totals show the same rows.
pub proof fn lemma_output_determined(t1: Table, t2: Table)
    requires
        t1.wf(),
        t2.wf(),
        t1@ == t2@,
    ensures
        t1.row_view() == t2.row_view(),
{
    lemma_rows_determined(t1.entries@, t2.entries@);
}

/// If no pair at or before `p` carries key `k`, and every pair before `p`
/// sorts below `k`, the whole sorted sequence misses `k`.
proof fn lemma_key_absent(s: Seq<(String, u64)>, k: Seq<char>, p: int)
    requires
        keys_sorted(s),
        0 <= p <= s.len(),
        forall|j: int| 0 <= j < p ==> lex_lt(#[trigger] s[j].0@, k),
        p < s.len() ==> lex_lt(k, s[p].0@),
    ensures
        forall|j: int| 0 <= j < s.len() ==> (#[trigger] s[j].0@) != k,
{
    assert forall|j: int| 0 <= j < s.len() implies (#[trigger] s[j].0@) != k by {
        if j < p {
            lemma_lex_trichotomy(s[j].0@, k);
        } else if j == p {
            lemma_lex_trichotomy(k, s[j].0@);
        } else {
            assert(lex_lt(s[p as int].0@, s[j].0@));
            lemma_lex_transitive(k, s[p as int].0@, s[j].0@);
            lemma_lex_trichotomy(k, s[j].0@);
        }
    }
}

/// Inserting a pair whose key no pair carries adds exactly that key to the
/// mapping.
proof fn lemma_map_of_insert(s: Seq<(String, u64)>, p: int, kv: (String, u64))
    requires
        0 <= p <= s.len(),
        forall|j: int| 0 <= j < s.len() ==> (#[trigger] s[j].0@) != kv.0@,
    ensures
        map_of(s.insert(p, kv)) == map_of(s).insert(kv.0@, kv.1),
    decreases s.len() - p,
{
    let t = s.insert(p, kv);
    if p == s.len() {
        assert(t =~= s.push(kv));
        assert(t.drop_last() =~= s);
    } else {
        assert(t.last() == s.last());
        assert(t.drop_last() =~= s.drop_last().insert(p, kv));
        assert(forall|j: int|
            0 <= j < s.len() - 1 ==> (#[trigger] s.drop_last()[j].0@) == s[j].0@);
        lemma_map_of_insert(s.drop_last(), p, kv);
        assert(map_of(t) =~= map_of(s).insert(kv.0@, kv.1)) by {
            assert(map_of(t) == map_of(s.drop_last()).insert(kv.0@, kv.1).insert(
                s.last().0@,
                s.last().1,
            ));
            assert(s.last().0@ != kv.0@);
        }
    }
}

/// Replacing the one pair that carries a key re-points that key at the new
/// total and changes nothing else.
proof fn lemma_map_of_update(s: Seq<(String, u64)>, p: int, kv: (String, u64))
    requires
        keys_sorted(s),
        0 <= p < s.len(),
        s[p].0@ == kv.0@,
    ensures
        map_of(s.update(p, kv)) == map_of(s).insert(kv.0@, kv.1),
    decreases s.len(),
{
    let t = s.update(p, kv);
    if p == s.len() - 1 {
        assert(t.drop_last() =~= s.drop_last());
        assert(t.last() == kv);
    } else {
        assert(t.last() == s.last());
        assert(t.drop_last() =~= s.drop_last().update(p, kv));
        assert(keys_sorted(s.drop_last())) by {
            assert(forall|x: int, y: int|
                0 <= x < y < s.len() - 1 ==> s.drop_last()[x] == s[x] && s.drop_last()[y] == s[y]);
        }
        assert(s.drop_last()[p] == s[p]);
        lemma_map_of_update(s.drop_last(), p, kv);
        assert(lex_lt(s[p].0@, s.last().0@));
        lemma_lex_trichotomy(s[p].0@, s.last().0@);
        assert(map_of(t) =~= map_of(s).insert(kv.0@, kv.1));
    }
}

/// Inserting at the point where everything before sorts below the new key
/// and everything after sorts above keeps the keys strictly ascending.
proof fn lemma_sorted_insert(s: Seq<(String, u64)>, p: int, kv: (String, u64))
    requires
        keys_sorted(s),
        0 <= p <= s.len(),
        forall|j: int| 0 <= j < p ==> lex_lt(#[trigger] s[j].0@, kv.0@),
        p < s.len() ==> lex_lt(kv.0@, s[p].0@),
    ensures
        keys_sorted(s.insert(p, kv)),
{
    let t = s.insert(p, kv);
    assert forall|i: int, j: int| 0 <= i < j < t.len() implies lex_lt(
        #[trigger] t[i].0@,
        #[trigger] t[j].0@,
    ) by {
        if i < p && j == p {
            assert(t[i] == s[i]);
        } else if i == p && j > p {
            assert(t[j] == s[j - 1]);
            if j - 1 > p {
                assert(lex_lt(s[p].0@, s[j - 1].0@));
                lemma_lex_transitive(kv.0@, s[p].0@, s[j - 1].0@);
            }
        } else if i < p && j > p {
            assert(t[i] == s[i] && t[j] == s[j - 1]);
            assert(lex_lt(s[i].0@, s[j - 1].0@));
        } else if j < p {
            assert(t[i] == s[i] && t[j] == s[j]);
        } else if i > p {
            assert(t[i] == s[i - 1] && t[j] == s[j - 1]);
        }
    }
}

} // verus!
