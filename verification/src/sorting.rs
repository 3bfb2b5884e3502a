//! Ordering the records of a bucket by file name.

use crate::calc::{records, NameDigest, NameDigestView};
use crate::text::{lemma_lex_le_transitive, lex_le, lex_lt, str_lt};
use vstd::prelude::*;
use vstd::seq_lib::{to_multiset_build, to_multiset_insert};

verus! {

/// Every record's name is not after the names of the records behind it.
pub open spec fn sorted_by_name(s: Seq<NameDigestView>) -> bool {
    forall|i: int, j: int| 0 <= i < j < s.len() ==> lex_le(#[trigger] s[i].name, #[trigger] s[j].name)
}

/// Where a record of the given name goes in `s`: behind the last record
/// whose name is not after it.
pub open spec fn insert_pos(s: Seq<NameDigestView>, name: Seq<char>) -> int
    decreases s.len(),
{
    if s.len() == 0 {
        0
    } else if lex_lt(name, s.last().name) {
        insert_pos(s.drop_last(), name)
    } else {
        s.len() as int
    }
}

/// The records in the order of their names; records of one name keep the
/// order in which they stood.
pub open spec fn sort_by_name(s: Seq<NameDigestView>) -> Seq<NameDigestView>
    decreases s.len(),
{
    if s.len() == 0 {
        s
    } else {
        let sorted = sort_by_name(s.drop_last());
        sorted.insert(insert_pos(sorted, s.last().name), s.last())
    }
}

/// `insert_pos` parts `s` in two: names not after `name`, then names after.
pub proof fn lemma_insert_pos(s: Seq<NameDigestView>, name: Seq<char>)
    ensures
        0 <= insert_pos(s, name) <= s.len(),
        forall|j: int| insert_pos(s, name) <= j < s.len() ==> lex_lt(name, #[trigger] s[j].name),
        insert_pos(s, name) > 0 ==> lex_le(s[insert_pos(s, name) - 1].name, name),
    decreases s.len(),
{
    if s.len() > 0 && lex_lt(name, s.last().name) {
        let t = s.drop_last();
        lemma_insert_pos(t, name);
        assert forall|j: int| insert_pos(s, name) <= j < s.len() implies lex_lt(
            name,
            #[trigger] s[j].name,
        ) by {
            if j < t.len() {
                assert(t[j] == s[j]);
            }
        }
    }
}

/// A strictly smaller name is also not after the other.
pub proof fn lemma_lex_lt_le(a: Seq<char>, b: Seq<char>)
    requires
        lex_lt(a, b),
    ensures
        lex_le(a, b),
    decreases a.len(),
{
    if a.len() > 0 && b.len() > 0 && a[0] == b[0] {
        lemma_lex_lt_le(a.drop_first(), b.drop_first());
    }
}

/// Sorting keeps the number of records.
pub proof fn lemma_sort_len(s: Seq<NameDigestView>)
    ensures
        sort_by_name(s).len() == s.len(),
    decreases s.len(),
{
    if s.len() > 0 {
        lemma_sort_len(s.drop_last());
        lemma_insert_pos(sort_by_name(s.drop_last()), s.last().name);
    }
}

/// What comes out of sorting is in the order of the names.
pub proof fn lemma_sort_sorted(s: Seq<NameDigestView>)
    ensures
        sorted_by_name(sort_by_name(s)),
    decreases s.len(),
{
    if s.len() > 0 {
        let t = sort_by_name(s.drop_last());
        let x = s.last();
        let p = insert_pos(t, x.name);
        let r = t.insert(p, x);
        lemma_sort_sorted(s.drop_last());
        lemma_insert_pos(t, x.name);
        assert forall|i: int, j: int| 0 <= i < j < r.len() implies lex_le(
            #[trigger] r[i].name,
            #[trigger] r[j].name,
        ) by {
            if j < p {
                assert(r[i] == t[i] && r[j] == t[j]);
            } else if j == p {
                if i < p - 1 {
                    lemma_lex_le_transitive(t[i].name, t[p - 1].name, x.name);
                }
            } else if i < p {
                assert(r[i] == t[i] && r[j] == t[j - 1]);
            } else if i == p {
                lemma_lex_lt_le(x.name, t[j - 1].name);
            } else {
                assert(r[i] == t[i - 1] && r[j] == t[j - 1]);
            }
        }
    }
}

/// What comes out of sorting holds the same records, each as often.
pub proof fn lemma_sort_permutes(s: Seq<NameDigestView>)
    ensures
        sort_by_name(s).to_multiset() == s.to_multiset(),
    decreases s.len(),
{
    if s.len() > 0 {
        let t = sort_by_name(s.drop_last());
        lemma_sort_permutes(s.drop_last());
        lemma_insert_pos(t, s.last().name);
        to_multiset_insert(t, insert_pos(t, s.last().name), s.last());
        to_multiset_build(s.drop_last(), s.last());
        assert(s.drop_last().push(s.last()) =~= s);
    }
}

/// Finds where a record of the given name goes in a sorted list.
fn find_insert_pos(v: &Vec<NameDigest>, name: &str) -> (r: usize)
    ensures
        r == insert_pos(records(v@), name@),
{
    let mut j: usize = v.len();
    assert(records(v@).take(j as int) =~= records(v@));
    while j > 0
        invariant
            j <= v.len(),
            insert_pos(records(v@), name@) == insert_pos(records(v@).take(j as int), name@),
        decreases j,
    {
        if !str_lt(name, v[j - 1].name.as_str()) {
            return j;
        }
        assert(records(v@).take(j as int).drop_last() =~= records(v@).take(j - 1));
        j = j - 1;
    }
    0
}

/// Puts the records in the order of their names. Records of one name keep
/// the order in which they stood.
pub fn sort_records(v: &mut Vec<NameDigest>)
    ensures
        records(final(v)@) == sort_by_name(records(old(v)@)),
        final(v).len() == old(v).len(),
{
    let mut source: Vec<NameDigest> = Vec::new();
    core::mem::swap(v, &mut source);
    let ghost all = records(source@);
    for rec in it: source
        invariant
            it.seq() == source@,
            all == records(source@),
            records(v@) == sort_by_name(all.take(it.index() as int)),
    {
        let ghost n = it.index() as int;
        proof {
            assert(all.take(n + 1).drop_last() =~= all.take(n));
            lemma_insert_pos(records(v@), rec@.name);
        }
        let pos = find_insert_pos(v, rec.name.as_str());
        v.insert(pos, rec);
    }
    proof {
        assert(all.take(all.len() as int) =~= all);
        lemma_sort_len(all);
    }
}

} // verus!
