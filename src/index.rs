//! An in-memory equality index from a field's value to a byte offset in the
//! table's source.
use vstd::prelude::*;

use crate::codec::row_model;
use crate::query::{is_unknown_field, position_of, QueryError, Schema};

verus! {

/// The map that a list of key/offset pairs describes; a later pair wins.
pub open spec fn pairs_map(s: Seq<(String, usize)>) -> Map<Seq<char>, usize>
    decreases s.len(),
{
    if s.len() == 0 {
        Map::empty()
    } else {
        pairs_map(s.drop_last()).insert(s.last().0@, s.last().1)
    }
}

/// No two pairs share a key.
pub open spec fn keys_unique(s: Seq<(String, usize)>) -> bool {
    forall|i: int, j: int| 0 <= i < j < s.len() ==> #[trigger] s[i].0@ != #[trigger] s[j].0@
}

proof fn lemma_pairs_map(s: Seq<(String, usize)>)
    requires
        keys_unique(s),
    ensures
        forall|k: Seq<char>|
            #[trigger] pairs_map(s).contains_key(k) <==> exists|i: int| 0 <= i < s.len() && s[i].0@ == k,
        forall|i: int| 0 <= i < s.len() ==> #[trigger] pairs_map(s)[s[i].0@] == s[i].1,
    decreases s.len(),
{
    if s.len() > 0 {
        let init = s.drop_last();
        assert(keys_unique(init));
        lemma_pairs_map(init);
        assert(pairs_map(s) == pairs_map(init).insert(s.last().0@, s.last().1));
        assert forall|k: Seq<char>| #[trigger] pairs_map(s).contains_key(k) implies exists|i: int|
            0 <= i < s.len() && s[i].0@ == k by {
            if k != s.last().0@ {
                assert(pairs_map(init).contains_key(k));
                let i = choose|i: int| 0 <= i < init.len() && init[i].0@ == k;
                assert(s[i].0@ == k);
            } else {
                assert(s[s.len() - 1].0@ == k);
            }
        }
        assert forall|i: int| 0 <= i < s.len() implies #[trigger] pairs_map(s)[s[i].0@] == s[i].1 by {
            if i < s.len() - 1 {
                assert(s[i].0@ != s[s.len() - 1].0@);
                assert(init[i] == s[i]);
                assert(pairs_map(init)[init[i].0@] == init[i].1);
            }
        }
        assert forall|k: Seq<char>| (exists|i: int| 0 <= i < s.len() && s[i].0@ == k) implies #[trigger] pairs_map(
            s,
        ).contains_key(k) by {
            let i = choose|i: int| 0 <= i < s.len() && s[i].0@ == k;
            if i < s.len() - 1 {
                assert(init[i] == s[i]);
                assert(pairs_map(init).contains_key(k));
            }
        }
    }
}

/// An equality index over one table: each key maps to the offset of the last
/// row seen with that key.
pub struct Index {
    ptrs: Vec<(String, usize)>,
    table: String,
}

impl Index {
    pub closed spec fn wf(&self) -> bool {
        keys_unique(self.ptrs@)
    }

    /// The key to offset map.
    pub closed spec fn entries(&self) -> Map<Seq<char>, usize> {
        pairs_map(self.ptrs@)
    }

    pub closed spec fn table_name(&self) -> Seq<char> {
        self.table@
    }

    /// An empty index over `table`.
    pub fn new(table: &str) -> (r: Index)
        ensures
            r.wf(),
            r.entries() == Map::<Seq<char>, usize>::empty(),
            r.table_name() == table@,
    {
        Index { ptrs: Vec::new(), table: table.to_owned() }
    }

    pub fn table(&self) -> (r: &str)
        ensures
            r@ == self.table_name(),
    {
        self.table.as_str()
    }

    /// Maps `key` to `offset`, replacing an earlier offset of the same key.
    pub fn insert(&mut self, key: String, offset: usize)
        requires
            old(self).wf(),
        ensures
            final(self).wf(),
            final(self).entries() == old(self).entries().insert(key@, offset),
            final(self).table_name() == old(self).table_name(),
    {
        let ghost s = self.ptrs@;
        proof {
            lemma_pairs_map(s);
        }
        let mut i: usize = 0;
        while i < self.ptrs.len()
            invariant
                i <= s.len(),
                s == old(self).ptrs@,
                keys_unique(s),
                self.ptrs@ == s,
                self.table@ == old(self).table@,
                forall|j: int| 0 <= j < i ==> s[j].0@ != key@,
            decreases s.len() - i,
        {
            if self.ptrs[i].0 == key {
                let ghost k = key@;
                self.ptrs.set(i, (key, offset));
                proof {
                    let s2 = self.ptrs@;
                    lemma_pairs_map(s);
                    assert(keys_unique(s2)) by {
                        assert forall|a: int, b: int| 0 <= a < b < s2.len() implies #[trigger] s2[a].0@
                            != #[trigger] s2[b].0@ by {
                            assert(s[a].0@ != s[b].0@);
                        }
                    }
                    lemma_pairs_map(s2);
                    let m1 = pairs_map(s).insert(k, offset);
                    let m2 = pairs_map(s2);
                    assert forall|q: Seq<char>| m2.contains_key(q) <==> m1.contains_key(q) by {
                        if q != k {
                            if m1.contains_key(q) {
                                let a = choose|a: int| 0 <= a < s.len() && s[a].0@ == q;
                                assert(s2[a].0@ == q);
                            }
                            if m2.contains_key(q) {
                                let a = choose|a: int| 0 <= a < s2.len() && s2[a].0@ == q;
                                assert(s[a].0@ == q);
                            }
                        } else {
                            assert(s2[i as int].0@ == q);
                        }
                    }
                    assert forall|q: Seq<char>| m2.contains_key(q) implies m2[q] == m1[q] by {
                        assert(m2.contains_key(q));
                        let a = choose|a: int| 0 <= a < s2.len() && s2[a].0@ == q;
                        assert(m2[s2[a].0@] == s2[a].1);
                        if a != i {
                            assert(s[a] == s2[a]);
                            assert(pairs_map(s)[s[a].0@] == s[a].1);
                        }
                    }
                    assert(m2 =~= m1);
                }
                return;
            }
            i += 1;
        }
        self.ptrs.push((key, offset));
        proof {
            let s2 = self.ptrs@;
            assert(s2.drop_last() =~= s);
            assert forall|a: int, b: int| 0 <= a < b < s2.len() implies #[trigger] s2[a].0@
                != #[trigger] s2[b].0@ by {
                if b < s.len() {
                    assert(s[a].0@ != s[b].0@);
                } else {
                    assert(s[a].0@ != key@);
                }
            }
        }
    }

    /// The offset recorded for `value`, if any.
    pub fn search(&self, value: &str) -> (r: Option<usize>)
        requires
            self.wf(),
        ensures
            self.entries().contains_key(value@) ==> r == Some(self.entries()[value@]),
            !self.entries().contains_key(value@) ==> r is None,
    {
        let v = value.to_owned();
        let mut i: usize = 0;
        while i < self.ptrs.len()
            invariant
                i <= self.ptrs@.len(),
                v@ == value@,
                self.wf(),
                forall|j: int| 0 <= j < i ==> self.ptrs@[j].0@ != value@,
            decreases self.ptrs@.len() - i,
        {
            if self.ptrs[i].0 == v {
                proof {
                    lemma_pairs_map(self.ptrs@);
                }
                return Some(self.ptrs[i].1);
            }
            i += 1;
        }
        proof {
            lemma_pairs_map(self.ptrs@);
        }
        None
    }
}

/// The index that a scan builds: for each row with a field at `idx`, its
/// value maps to the row's offset; a later row wins.
pub open spec fn index_of(entries: Seq<(Seq<Seq<char>>, usize)>, idx: int) -> Map<Seq<char>, usize>
    decreases entries.len(),
{
    if entries.len() == 0 {
        Map::empty()
    } else {
        let m = index_of(entries.drop_last(), idx);
        let (row, off) = entries.last();
        if 0 <= idx < row.len() {
            m.insert(row[idx], off)
        } else {
            m
        }
    }
}

/// The model of rows paired with their offsets.
pub open spec fn entries_model(entries: Seq<(Vec<String>, usize)>) -> Seq<(Seq<Seq<char>>, usize)> {
    entries.map_values(|e: (Vec<String>, usize)| (row_model(e.0@), e.1))
}

/// Builds an equality index on one field of a table.
pub struct IndexBuilder {
    idx: usize,
}

impl IndexBuilder {
    pub closed spec fn field_index(&self) -> int {
        self.idx as int
    }

    /// Resolves `field` against `schema`; fails with `UnknownField` when the
    /// schema lacks it.
    pub fn new(field: &str, schema: &Schema) -> (r: Result<IndexBuilder, QueryError>)
        ensures
            position_of(schema.names(), field@) is Some <==> r is Ok,
            r matches Ok(b) ==> position_of(schema.names(), field@) == Some(b.field_index()),
            r matches Err(e) ==> is_unknown_field(e, field@, schema.table_name()),
    {
        let name = field.to_owned();
        match schema.position(&name) {
            Some(idx) => Ok(IndexBuilder { idx }),
            None => {
                let table = schema.table().to_owned();
                Err(QueryError::UnknownField { field: name, table })
            },
        }
    }

    /// The index over `entries`, each a row with the byte offset where the
    /// row starts in the source of `table`.
    pub fn build(&self, entries: &Vec<(Vec<String>, usize)>, table: &str) -> (r: Index)
        ensures
            r.wf(),
            r.entries() == index_of(entries_model(entries@), self.field_index()),
            r.table_name() == table@,
    {
        let ghost m = entries_model(entries@);
        let mut index = Index::new(table);
        let mut i: usize = 0;
        assert(m.take(0) =~= Seq::<(Seq<Seq<char>>, usize)>::empty());
        while i < entries.len()
            invariant
                i <= entries@.len(),
                m == entries_model(entries@),
                index.wf(),
                index.entries() == index_of(m.take(i as int), self.field_index()),
                index.table_name() == table@,
            decreases entries@.len() - i,
        {
            let ghost t = m.take(i + 1);
            assert(t.drop_last() =~= m.take(i as int));
            assert(t.last() == m[i as int]);
            let row = &entries[i].0;
            if self.idx < row.len() {
                index.insert(row[self.idx].clone(), entries[i].1);
            }
            i += 1;
        }
        assert(m.take(i as int) =~= m);
        index
    }
}

} // verus!
