//! Ordered datasets keyed by padded sample keys, and the join engine.
//!
//! A dataset is an ordered mapping from a normalized (padded) sample key
//! to one extracted value.  Keys are kept strictly ascending in
//! lexicographic order, which by the padding invariant is the natural
//! numeric order of the samples; inserting an existing key overwrites
//! its value.

use vstd::prelude::*;

use crate::errors::MyError;
use crate::extract::{
    flag_from_summary_lines, spec_flag_from_summary, spec_total_sequences,
    total_sequences_from_lines, Flag,
};
use crate::keys::{pad_spec, remove_zero_pad_from_dir, unpad_spec, zero_pad_dir};
use crate::strutil::{
    lemma_lex_irrefl, lemma_lex_total, lemma_lex_trans, lex_lt, replace_all, replace_sub, str_eq,
    str_lt,
};

verus! {

/// The keys of an entry sequence, in storage order.
pub open spec fn entry_keys<V>(entries: Seq<(String, V)>) -> Seq<Seq<char>> {
    entries.map_values(|e: (String, V)| e.0@)
}

/// The mapping described by an entry sequence, later entries winning.
pub open spec fn map_of_entries<V>(entries: Seq<(String, V)>) -> Map<Seq<char>, V>
    decreases entries.len(),
{
    if entries.len() == 0 {
        Map::empty()
    } else {
        map_of_entries(entries.drop_last()).insert(entries.last().0@, entries.last().1)
    }
}

/// Some entry carries the key `k`.
pub open spec fn has_key<V>(entries: Seq<(String, V)>, k: Seq<char>) -> bool {
    exists|i: int| 0 <= i < entries.len() && (#[trigger] entries[i]).0@ == k
}

/// No two entries carry the same key.
pub open spec fn distinct_keys<V>(entries: Seq<(String, V)>) -> bool {
    forall|i: int, j: int|
        0 <= i < j < entries.len() ==> (#[trigger] entries[i]).0@ != (#[trigger] entries[j]).0@
}

/// The mapping holds exactly the keys of the entries.
proof fn lemma_map_of_entries_dom<V>(entries: Seq<(String, V)>)
    ensures
        forall|k: Seq<char>|
            #[trigger] map_of_entries(entries).contains_key(k) <==> has_key(entries, k),
        map_of_entries(entries).dom().finite(),
    decreases entries.len(),
{
    broadcast use vstd::set::group_set_axioms;

    if entries.len() > 0 {
        lemma_map_of_entries_dom(entries.drop_last());
        assert forall|k: Seq<char>| has_key(entries.drop_last(), k) implies has_key(
            entries,
            k,
        ) by {
            let i = choose|i: int|
                0 <= i < entries.drop_last().len() && (#[trigger] entries.drop_last()[i]).0@ == k;
            assert(entries[i].0@ == k);
        }
        assert forall|k: Seq<char>| #[trigger] map_of_entries(entries).contains_key(k) implies
            has_key(entries, k) by {
            if k == entries.last().0@ {
                assert(entries[entries.len() - 1].0@ == k);
            }
        }
        assert forall|k: Seq<char>| has_key(entries, k) implies map_of_entries(
            entries,
        ).contains_key(k) by {
            let i = choose|i: int| 0 <= i < entries.len() && (#[trigger] entries[i]).0@ == k;
            if i < entries.len() - 1 {
                assert(entries.drop_last()[i].0@ == k);
                assert(has_key(entries.drop_last(), k));
            }
        }
    }
}

/// With distinct keys, the mapping agrees with every entry.
proof fn lemma_map_of_entries_at<V>(entries: Seq<(String, V)>, i: int)
    requires
        0 <= i < entries.len(),
        distinct_keys(entries),
    ensures
        map_of_entries(entries).contains_key(entries[i].0@),
        map_of_entries(entries)[entries[i].0@] == entries[i].1,
    decreases entries.len(),
{
    if i < entries.len() - 1 {
        assert(entries.drop_last()[i] == entries[i]);
        lemma_map_of_entries_at(entries.drop_last(), i);
        assert(entries[i].0@ != entries.last().0@);
    }
}

/// Overwriting the entry at `p` with an entry of the same key updates
/// the mapping at that key.
proof fn lemma_map_of_entries_update<V>(entries: Seq<(String, V)>, p: int, e: (String, V))
    requires
        0 <= p < entries.len(),
        entries[p].0@ == e.0@,
        distinct_keys(entries),
    ensures
        map_of_entries(entries.update(p, e)) == map_of_entries(entries).insert(e.0@, e.1),
    decreases entries.len(),
{
    let u = entries.update(p, e);
    if p == entries.len() - 1 {
        assert(u.drop_last() =~= entries.drop_last());
        assert(u.last() == e);
        assert(map_of_entries(u) =~= map_of_entries(entries).insert(e.0@, e.1));
    } else {
        assert(u.drop_last() =~= entries.drop_last().update(p, e));
        assert(u.last() == entries.last());
        assert forall|a: int, b: int| 0 <= a < b < entries.drop_last().len() implies (
        #[trigger] entries.drop_last()[a]).0@ != (#[trigger] entries.drop_last()[b]).0@ by {
            assert(entries.drop_last()[a] == entries[a]);
            assert(entries.drop_last()[b] == entries[b]);
        }
        assert(entries.drop_last()[p] == entries[p]);
        lemma_map_of_entries_update(entries.drop_last(), p, e);
        assert(entries[p].0@ != entries.last().0@);
        assert(map_of_entries(u) =~= map_of_entries(entries).insert(e.0@, e.1));
    }
}

/// Inserting an entry with a fresh key at any position inserts its key
/// into the mapping.
proof fn lemma_map_of_entries_insert<V>(entries: Seq<(String, V)>, p: int, e: (String, V))
    requires
        0 <= p <= entries.len(),
        forall|i: int| 0 <= i < entries.len() ==> (#[trigger] entries[i]).0@ != e.0@,
    ensures
        map_of_entries(entries.insert(p, e)) == map_of_entries(entries).insert(e.0@, e.1),
    decreases entries.len(),
{
    let u = entries.insert(p, e);
    entries.insert_ensures(p, e);
    if p == entries.len() {
        assert(u.drop_last() =~= entries);
        assert(u.last() == e);
    } else {
        assert(u.drop_last() =~= entries.drop_last().insert(p, e));
        assert(u.last() == entries.last());
        assert forall|i: int| 0 <= i < entries.drop_last().len() implies (
        #[trigger] entries.drop_last()[i]).0@ != e.0@ by {
            assert(entries.drop_last()[i] == entries[i]);
        }
        lemma_map_of_entries_insert(entries.drop_last(), p, e);
        assert(entries[entries.len() - 1].0@ != e.0@);
        assert(map_of_entries(u) =~= map_of_entries(entries).insert(e.0@, e.1));
    }
}

/// An ordered mapping from padded sample key to an extracted value.
pub struct Dataset<V> {
    entries: Vec<(String, V)>,
}

impl<V> Dataset<V> {
    /// The keys, in storage order.
    pub closed spec fn keys(self) -> Seq<Seq<char>> {
        entry_keys(self.entries@)
    }

    /// The entries, in storage order, as pairs of key view and value.
    pub closed spec fn entry_views(self) -> Seq<(Seq<char>, V)> {
        self.entries@.map_values(|e: (String, V)| (e.0@, e.1))
    }

    /// The mapping held by the dataset.
    pub closed spec fn kv_map(self) -> Map<Seq<char>, V> {
        map_of_entries(self.entries@)
    }

    /// Keys are strictly ascending in lexicographic order.
    pub closed spec fn wf(self) -> bool {
        forall|i: int, j: int|
            0 <= i < j < self.keys().len() ==> lex_lt(self.keys()[i], self.keys()[j])
    }

    /// Strictly ascending keys are distinct.
    proof fn lemma_wf_distinct(self)
        requires
            self.wf(),
        ensures
            distinct_keys(self.entries@),
    {
        assert forall|i: int, j: int| 0 <= i < j < self.entries@.len() implies (
        #[trigger] self.entries@[i]).0@ != (#[trigger] self.entries@[j]).0@ by {
            assert(lex_lt(self.keys()[i], self.keys()[j]));
            lemma_lex_irrefl(self.keys()[i]);
        }
    }

    /// What the entry views say about the mapping: keys ascending, the
    /// mapping agreeing with every entry, and every key backed by an
    /// entry.
    proof fn lemma_entry_views_describe(self)
        requires
            self.wf(),
        ensures
            forall|i: int, j: int|
                0 <= i < j < self.entry_views().len() ==> lex_lt(
                    (#[trigger] self.entry_views()[i]).0,
                    (#[trigger] self.entry_views()[j]).0,
                ),
            forall|i: int|
                0 <= i < self.entry_views().len() ==> self.kv_map().contains_key(
                    (#[trigger] self.entry_views()[i]).0,
                ) && self.kv_map()[self.entry_views()[i].0] == self.entry_views()[i].1,
            forall|k: Seq<char>|
                #[trigger] self.kv_map().contains_key(k) ==> exists|i: int|
                    0 <= i < self.entry_views().len() && (#[trigger] self.entry_views()[i]).0 == k,
            self.kv_map().dom().finite(),
    {
        self.lemma_wf_distinct();
        lemma_map_of_entries_dom(self.entries@);
        let evs = self.entry_views();
        assert forall|i: int, j: int| 0 <= i < j < evs.len() implies lex_lt(
            (#[trigger] evs[i]).0,
            (#[trigger] evs[j]).0,
        ) by {
            assert(evs[i].0 == self.keys()[i]);
            assert(evs[j].0 == self.keys()[j]);
        }
        assert forall|i: int| 0 <= i < evs.len() implies self.kv_map().contains_key(
            (#[trigger] evs[i]).0,
        ) && self.kv_map()[evs[i].0] == evs[i].1 by {
            lemma_map_of_entries_at(self.entries@, i);
            assert(evs[i].0 == self.entries@[i].0@);
            assert(evs[i].1 == self.entries@[i].1);
        }
        assert forall|k: Seq<char>| #[trigger] self.kv_map().contains_key(k) implies exists|i: int|
            0 <= i < evs.len() && (#[trigger] evs[i]).0 == k by {
            assert(has_key(self.entries@, k));
            let i = choose|i: int| 0 <= i < self.entries@.len() && (#[trigger] self.entries@[i]).0@ == k;
            assert(evs[i].0 == k);
        }
    }

    /// An empty dataset.
    pub fn new() -> (r: Self)
        ensures
            r.wf(),
            r.kv_map() == Map::<Seq<char>, V>::empty(),
            r.entry_views() == Seq::<(Seq<char>, V)>::empty(),
    {
        let r = Dataset { entries: Vec::new() };
        proof {
            assert(r.entry_views() =~= Seq::<(Seq<char>, V)>::empty());
        }
        r
    }

    /// The number of samples held.
    pub fn len(&self) -> (r: usize)
        ensures
            r == self.entry_views().len(),
    {
        self.entries.len()
    }

    /// The key at storage position `i`.
    pub fn key_at(&self, i: usize) -> (r: String)
        requires
            i < self.entry_views().len(),
        ensures
            r@ == self.entry_views()[i as int].0,
    {
        self.entries[i].0.clone()
    }

    /// Inserts one sample, keeping keys ascending; an existing key is
    /// overwritten.
    pub fn insert(&mut self, key: String, value: V)
        requires
            old(self).wf(),
        ensures
            final(self).wf(),
            final(self).kv_map() == old(self).kv_map().insert(key@, value),
    {
        let n = self.entries.len();
        let mut p: usize = 0;
        while p < n && str_lt(self.entries[p].0.as_str(), key.as_str())
            invariant
                0 <= p <= n,
                n == self.entries.len(),
                *self == *old(self),
                forall|j: int| 0 <= j < p ==> lex_lt(self.keys()[j], key@),
            decreases n - p,
        {
            p += 1;
        }
        proof {
            self.lemma_wf_distinct();
        }
        if p < n && str_eq(self.entries[p].0.as_str(), key.as_str()) {
            let e = (key, value);
            self.entries.remove(p);
            self.entries.insert(p, e);
            proof {
                old(self).entries@.remove_ensures(p as int);
                old(self).entries@.remove(p as int).insert_ensures(p as int, e);
                assert(self.entries@ =~= old(self).entries@.update(p as int, e));
                lemma_map_of_entries_update(old(self).entries@, p as int, e);
                assert(self.keys() =~= old(self).keys().update(p as int, e.0@));
                assert(e.0@ == old(self).keys()[p as int]);
                assert(self.keys() =~= old(self).keys());
            }
        } else {
            let e = (key, value);
            proof {
                let ks = old(self).keys();
                if p < n {
                    assert(old(self).entries@[p as int].0@ == ks[p as int]);
                    lemma_lex_total(e.0@, ks[p as int]);
                    assert(lex_lt(e.0@, ks[p as int]));
                }
                assert forall|i: int| 0 <= i < old(self).entries@.len() implies (
                #[trigger] old(self).entries@[i]).0@ != e.0@ by {
                    assert(ks[i] == old(self).entries@[i].0@);
                    if i < p {
                        assert(lex_lt(ks[i], e.0@));
                        lemma_lex_irrefl(e.0@);
                    } else if i == p {
                    } else {
                        assert(lex_lt(ks[p as int], ks[i]));
                        lemma_lex_trans(e.0@, ks[p as int], ks[i]);
                        lemma_lex_irrefl(e.0@);
                    }
                }
            }
            self.entries.insert(p, e);
            proof {
                old(self).entries@.insert_ensures(p as int, e);
                lemma_map_of_entries_insert(old(self).entries@, p as int, e);
                assert(self.keys() =~= old(self).keys().insert(p as int, e.0@));
                assert forall|i: int, j: int| 0 <= i < j < self.keys().len() implies lex_lt(
                    self.keys()[i],
                    self.keys()[j],
                ) by {
                    let ks = self.keys();
                    let p_ = p as int;
                    if i < p_ && j == p_ {
                    } else if i == p_ && j > p_ {
                        assert(ks[j] == old(self).keys()[j - 1]);
                        if j - 1 > p_ {
                            lemma_lex_trans(
                                e.0@,
                                old(self).keys()[p_],
                                old(self).keys()[j - 1],
                            );
                        }
                    } else if i < p_ && j > p_ {
                        assert(ks[i] == old(self).keys()[i]);
                        assert(ks[j] == old(self).keys()[j - 1]);
                        if i < j - 1 {
                        } else {
                            assert(i == p_ - 1 && j == p_ + 1);
                            lemma_lex_trans(old(self).keys()[i], e.0@, old(self).keys()[j - 1]);
                        }
                    } else if i < p_ && j < p_ {
                        assert(ks[i] == old(self).keys()[i]);
                        assert(ks[j] == old(self).keys()[j]);
                    } else if i > p_ && j > p_ {
                        assert(ks[i] == old(self).keys()[i - 1]);
                        assert(ks[j] == old(self).keys()[j - 1]);
                    }
                }
            }
        }
    }
}

impl<V: Copy> Dataset<V> {
    /// The value at storage position `i`.
    pub fn value_at(&self, i: usize) -> (r: V)
        requires
            i < self.entry_views().len(),
        ensures
            r == self.entry_views()[i as int].1,
    {
        self.entries[i].1
    }

    /// Looks one sample up by its padded key.
    pub fn get(&self, key: &str) -> (r: Option<V>)
        requires
            self.wf(),
        ensures
            match r {
                Some(v) => self.kv_map().contains_key(key@) && v == self.kv_map()[key@],
                None => !self.kv_map().contains_key(key@),
            },
    {
        let n = self.entries.len();
        let mut i: usize = 0;
        while i < n
            invariant
                0 <= i <= n,
                n == self.entries.len(),
                self.wf(),
                forall|j: int| 0 <= j < i ==> (#[trigger] self.entries@[j]).0@ != key@,
            decreases n - i,
        {
            if str_eq(self.entries[i].0.as_str(), key) {
                proof {
                    self.lemma_wf_distinct();
                    lemma_map_of_entries_at(self.entries@, i as int);
                }
                return Some(self.entries[i].1);
            }
            i += 1;
        }
        proof {
            lemma_map_of_entries_dom(self.entries@);
        }
        None
    }
}

// ---------------------------------------------------------------------------
// The join engine
// ---------------------------------------------------------------------------

/// One joined sample: present both before and after trimming, with its
/// two counts and their delta, keyed by the unpadded display name.
pub struct LengthChange {
    pub name: String,
    pub before: u32,
    pub after: u32,
    pub change: u32,
}

/// What one joined record holds for a padded key and its two counts: a
/// post-trim count above the pre-trim count would underflow the unsigned
/// delta and is a range error; otherwise the key is unpadded for display
/// and the delta is the difference of the counts.
pub open spec fn lc_new_spec(name: Seq<char>, before: u32, after: u32) -> Result<
    (Seq<char>, u32, u32, u32),
    MyError,
> {
    if after > before {
        Err(MyError::RangeError)
    } else {
        match unpad_spec(name) {
            None => Err(MyError::InvalidFileName),
            Some(nm) => Ok((nm, before, after, (before - after) as u32)),
        }
    }
}

impl LengthChange {
    /// The record as plain values.
    pub open spec fn view_parts(self) -> (Seq<char>, u32, u32, u32) {
        (self.name@, self.before, self.after, self.change)
    }

    /// Builds a display record from a padded key and its two counts.
    pub fn new(name: String, before: u32, after: u32) -> (r: Result<Self, MyError>)
        ensures
            match r {
                Ok(lc) => lc_new_spec(name@, before, after) == Ok::<_, MyError>(lc.view_parts()),
                Err(e) => lc_new_spec(name@, before, after) == Err::<
                    (Seq<char>, u32, u32, u32),
                    _,
                >(e),
            },
    {
        if after > before {
            return Err(MyError::RangeError);
        }
        let change = before - after;
        match remove_zero_pad_from_dir(name) {
            Err(e) => Err(e),
            Ok(nm) => Ok(LengthChange { name: nm, before, after, change }),
        }
    }
}

/// The inner join of an entry sequence against a mapping: one triple of
/// key, left value and right value per entry whose key the mapping
/// holds, in entry order; unmatched keys are dropped.
pub open spec fn join_entries(entries: Seq<(Seq<char>, u32)>, am: Map<Seq<char>, u32>) -> Seq<
    (Seq<char>, u32, u32),
> decreases entries.len() {
    if entries.len() == 0 {
        Seq::empty()
    } else {
        let rest = join_entries(entries.drop_last(), am);
        let e = entries.last();
        if am.contains_key(e.0) {
            rest.push((e.0, e.1, am[e.0]))
        } else {
            rest
        }
    }
}

/// The display records of the matched triples, in order; the first
/// failing triple decides the error.
pub open spec fn join_records_spec(joined: Seq<(Seq<char>, u32, u32)>) -> Result<
    Seq<(Seq<char>, u32, u32, u32)>,
    MyError,
> decreases joined.len() {
    if joined.len() == 0 {
        Ok(Seq::empty())
    } else {
        match join_records_spec(joined.drop_last()) {
            Err(e) => Err(e),
            Ok(rs) => {
                let e = joined.last();
                match lc_new_spec(e.0, e.1, e.2) {
                    Err(er) => Err(er),
                    Ok(lc) => Ok(rs.push(lc)),
                }
            },
        }
    }
}

/// The records of a vector of joined samples, as plain values.
pub open spec fn lc_views(v: Seq<LengthChange>) -> Seq<(Seq<char>, u32, u32, u32)> {
    v.map_values(|lc: LengthChange| lc.view_parts())
}

/// A successful join yields exactly one display record per matched
/// triple, so together with the matched-key count the output length is
/// the number of keys present in both datasets.
pub proof fn lemma_join_records_len(joined: Seq<(Seq<char>, u32, u32)>)
    requires
        join_records_spec(joined) is Ok,
    ensures
        (join_records_spec(joined)->Ok_0).len() == joined.len(),
    decreases joined.len(),
{
    if joined.len() > 0 {
        lemma_join_records_len(joined.drop_last());
    }
}

/// An error on a joined prefix decides the whole join.
proof fn lemma_join_err_extends(entries: Seq<(Seq<char>, u32)>, am: Map<Seq<char>, u32>, k: int)
    requires
        0 <= k <= entries.len(),
        join_records_spec(join_entries(entries.take(k), am)) is Err,
    ensures
        join_records_spec(join_entries(entries, am)) == join_records_spec(
            join_entries(entries.take(k), am),
        ),
    decreases entries.len(),
{
    if k == entries.len() {
        assert(entries.take(k) =~= entries);
    } else {
        assert(entries.drop_last().take(k) =~= entries.take(k));
        lemma_join_err_extends(entries.drop_last(), am, k);
        let rest = join_entries(entries.drop_last(), am);
        let e = entries.last();
        if am.contains_key(e.0) {
            let pushed = rest.push((e.0, e.1, am[e.0]));
            assert(pushed.drop_last() =~= rest);
            assert(pushed.len() > 0);
        }
    }
}

/// Joins the before-trimming and after-trimming datasets by sample key:
/// an inner join, one record per key present in both, in ascending key
/// order, each record carrying the two counts and their delta under the
/// unpadded display name.
pub fn join_datasets(before: &Dataset<u32>, after: &Dataset<u32>) -> (r: Result<
    Vec<LengthChange>,
    MyError,
>)
    requires
        before.wf(),
        after.wf(),
    ensures
        match r {
            Ok(v) => join_records_spec(join_entries(before.entry_views(), after.kv_map()))
                == Ok::<_, MyError>(lc_views(v@)),
            Err(e) => join_records_spec(join_entries(before.entry_views(), after.kv_map()))
                == Err::<Seq<(Seq<char>, u32, u32, u32)>, _>(e),
        },
{
    let ghost evs = before.entry_views();
    let ghost am = after.kv_map();
    let n = before.len();
    let mut out: Vec<LengthChange> = Vec::new();
    let mut i: usize = 0;
    proof {
        assert(evs.take(0) =~= Seq::<(Seq<char>, u32)>::empty());
        assert(lc_views(out@) =~= Seq::<(Seq<char>, u32, u32, u32)>::empty());
    }
    while i < n
        invariant
            0 <= i <= n,
            n == evs.len(),
            evs == before.entry_views(),
            am == after.kv_map(),
            before.wf(),
            after.wf(),
            join_records_spec(join_entries(evs.take(i as int), am)) == Ok::<
                Seq<(Seq<char>, u32, u32, u32)>,
                MyError,
            >(lc_views(out@)),
        decreases n - i,
    {
        let key = before.key_at(i);
        let bval = before.value_at(i);
        proof {
            assert(evs.take(i as int + 1).drop_last() =~= evs.take(i as int));
            assert(evs.take(i as int + 1).last() == evs[i as int]);
        }
        match after.get(key.as_str()) {
            None => {
                proof {
                    assert(join_entries(evs.take(i as int + 1), am) == join_entries(
                        evs.take(i as int),
                        am,
                    ));
                }
            },
            Some(aval) => {
                let ghost out0 = out@;
                let ghost rest = join_entries(evs.take(i as int), am);
                let ghost rec = (evs[i as int].0, evs[i as int].1, am[evs[i as int].0]);
                proof {
                    assert(join_entries(evs.take(i as int + 1), am) == rest.push(rec));
                    assert(rest.push(rec).drop_last() =~= rest);
                    assert(rest.push(rec).last() == rec);
                }
                match LengthChange::new(key, bval, aval) {
                    Err(e) => {
                        proof {
                            lemma_join_err_extends(evs, am, i as int + 1);
                        }
                        return Err(e);
                    },
                    Ok(lc) => {
                        out.push(lc);
                        proof {
                            assert(lc_views(out@) =~= lc_views(out0).push(lc.view_parts()));
                        }
                    },
                }
            },
        }
        i += 1;
    }
    proof {
        assert(evs.take(n as int) =~= evs);
    }
    Ok(out)
}

// ---------------------------------------------------------------------------
// Laws of the join
// ---------------------------------------------------------------------------

/// The keys of an entry-view sequence, in storage order.
pub open spec fn view_keys(entries: Seq<(Seq<char>, u32)>) -> Seq<Seq<char>> {
    entries.map_values(|e: (Seq<char>, u32)| e.0)
}

/// The samples matched by a join: the keys present in both datasets.
pub open spec fn matched_keys(bm: Map<Seq<char>, u32>, am: Map<Seq<char>, u32>) -> Set<Seq<char>> {
    bm.dom().intersect(am.dom())
}

/// The delta of one matched sample, as a mathematical integer.
pub open spec fn delta_of(bm: Map<Seq<char>, u32>, am: Map<Seq<char>, u32>, k: Seq<char>) -> int {
    bm[k] - am[k]
}

/// The join is commutative up to sign: swapping which dataset is before
/// and which is after leaves the matched key set unchanged and negates
/// every delta.
pub proof fn lemma_join_swap(bm: Map<Seq<char>, u32>, am: Map<Seq<char>, u32>)
    ensures
        matched_keys(bm, am) == matched_keys(am, bm),
        forall|k: Seq<char>|
            matched_keys(bm, am).contains(k) ==> delta_of(bm, am, k) == -delta_of(am, bm, k),
{
    broadcast use vstd::set::group_set_axioms;

    assert(matched_keys(bm, am) =~= matched_keys(am, bm));
}

/// Record `rec` takes its key and left value from one of the entries.
pub open spec fn comes_from(entries: Seq<(Seq<char>, u32)>, rec: (Seq<char>, u32, u32)) -> bool {
    exists|i: int| 0 <= i < entries.len() && (#[trigger] entries[i]) == (rec.0, rec.1)
}

/// Every joined record takes its key and left value from one entry.
proof fn lemma_join_entries_from(entries: Seq<(Seq<char>, u32)>, am: Map<Seq<char>, u32>)
    ensures
        forall|t: int|
            0 <= t < join_entries(entries, am).len() ==> comes_from(
                entries,
                #[trigger] join_entries(entries, am)[t],
            ),
    decreases entries.len(),
{
    if entries.len() > 0 {
        lemma_join_entries_from(entries.drop_last(), am);
        let je = join_entries(entries, am);
        let rest = join_entries(entries.drop_last(), am);
        assert forall|t: int| 0 <= t < je.len() implies comes_from(entries, #[trigger] je[t]) by {
            if t < rest.len() {
                assert(comes_from(entries.drop_last(), rest[t]));
                let i = choose|i: int|
                    0 <= i < entries.drop_last().len() && (#[trigger] entries.drop_last()[i]) == (
                    rest[t].0,
                    rest[t].1,
                    );
                assert(entries[i] == (je[t].0, je[t].1));
            } else {
                assert(entries[entries.len() - 1] == (je[t].0, je[t].1));
            }
        }
    }
}

/// With distinct keys, the join has exactly one record per key present
/// in both sides, every record's key lies in both, and its right value
/// is the mapping's value at the key.
proof fn lemma_join_entries_matched(entries: Seq<(Seq<char>, u32)>, am: Map<Seq<char>, u32>)
    requires
        forall|i: int, j: int|
            0 <= i < j < entries.len() ==> (#[trigger] entries[i]).0 != (#[trigger] entries[j]).0,
        am.dom().finite(),
    ensures
        join_entries(entries, am).len() == view_keys(entries).to_set().intersect(am.dom()).len(),
        forall|t: int|
            0 <= t < join_entries(entries, am).len() ==> {
                let rec = #[trigger] join_entries(entries, am)[t];
                view_keys(entries).to_set().contains(rec.0) && am.contains_key(rec.0) && rec.2
                    == am[rec.0]
            },
    decreases entries.len(),
{
    broadcast use vstd::set::group_set_axioms, vstd::seq_lib::seq_to_set_is_finite;

    if entries.len() == 0 {
        assert(view_keys(entries).to_set().intersect(am.dom()) =~= Set::<Seq<char>>::empty());
    } else {
        let dl = entries.drop_last();
        assert forall|i: int, j: int| 0 <= i < j < dl.len() implies (#[trigger] dl[i]).0 != (
        #[trigger] dl[j]).0 by {
            assert(dl[i] == entries[i]);
            assert(dl[j] == entries[j]);
        }
        lemma_join_entries_matched(dl, am);
        let k = entries.last().0;
        let s_dl = view_keys(dl).to_set();
        let s_all = view_keys(entries).to_set();
        assert(view_keys(entries) =~= view_keys(dl).push(k));
        assert forall|x: Seq<char>| #[trigger] s_all.contains(x) <==> s_dl.contains(x) || x
            == k by {
            if view_keys(entries).contains(x) {
                let i = choose|i: int|
                    0 <= i < view_keys(entries).len() && view_keys(entries)[i] == x;
                if i < dl.len() {
                    assert(view_keys(dl)[i] == x);
                }
            }
            if view_keys(dl).contains(x) {
                let i = choose|i: int| 0 <= i < view_keys(dl).len() && view_keys(dl)[i] == x;
                assert(view_keys(entries)[i] == x);
            }
            if x == k {
                assert(view_keys(entries)[entries.len() - 1] == x);
            }
        }
        assert(s_all =~= s_dl.insert(k));
        assert(!s_dl.contains(k)) by {
            if s_dl.contains(k) {
                let i = choose|i: int| 0 <= i < view_keys(dl).len() && view_keys(dl)[i] == k;
                assert(entries[i].0 == k);
                assert(entries[i].0 != entries[entries.len() - 1].0);
            }
        }
        if am.contains_key(k) {
            assert(s_all.intersect(am.dom()) =~= s_dl.intersect(am.dom()).insert(k));
            assert(!s_dl.intersect(am.dom()).contains(k));
            assert(s_dl.intersect(am.dom()).finite());
        } else {
            assert(s_all.intersect(am.dom()) =~= s_dl.intersect(am.dom()));
        }
        assert forall|t: int| 0 <= t < join_entries(entries, am).len() implies {
            let rec = #[trigger] join_entries(entries, am)[t];
            view_keys(entries).to_set().contains(rec.0) && am.contains_key(rec.0) && rec.2
                == am[rec.0]
        } by {
            let je = join_entries(entries, am);
            let rest = join_entries(dl, am);
            if t < rest.len() {
                assert(je[t] == rest[t]);
                assert(s_dl.contains(rest[t].0));
            } else {
                assert(je[t].0 == k);
            }
        }
    }
}

/// The joined records keep the ascending key order of the left dataset.
proof fn lemma_join_entries_sorted(entries: Seq<(Seq<char>, u32)>, am: Map<Seq<char>, u32>)
    requires
        forall|i: int, j: int|
            0 <= i < j < entries.len() ==> lex_lt(
                (#[trigger] entries[i]).0,
                (#[trigger] entries[j]).0,
            ),
    ensures
        forall|s: int, t: int|
            0 <= s < t < join_entries(entries, am).len() ==> lex_lt(
                (#[trigger] join_entries(entries, am)[s]).0,
                (#[trigger] join_entries(entries, am)[t]).0,
            ),
    decreases entries.len(),
{
    if entries.len() > 0 {
        let dl = entries.drop_last();
        assert forall|i: int, j: int| 0 <= i < j < dl.len() implies lex_lt(
            (#[trigger] dl[i]).0,
            (#[trigger] dl[j]).0,
        ) by {
            assert(dl[i] == entries[i]);
            assert(dl[j] == entries[j]);
        }
        lemma_join_entries_sorted(dl, am);
        lemma_join_entries_from(dl, am);
        let je = join_entries(entries, am);
        let rest = join_entries(dl, am);
        assert forall|s: int, t: int| 0 <= s < t < je.len() implies lex_lt(
            (#[trigger] je[s]).0,
            (#[trigger] je[t]).0,
        ) by {
            if t < rest.len() {
                assert(je[s] == rest[s]);
                assert(je[t] == rest[t]);
            } else if t == rest.len() && t < je.len() {
                assert(je[s] == rest[s]);
                assert(comes_from(dl, rest[s]));
                let i = choose|i: int|
                    0 <= i < dl.len() && (#[trigger] dl[i]) == (rest[s].0, rest[s].1);
                assert(entries[i].0 == rest[s].0);
                assert(lex_lt(entries[i].0, entries[entries.len() - 1].0));
            }
        }
    }
}

/// The join of two well-formed datasets yields exactly one record per
/// key present in both, in ascending key order, each record carrying
/// that key's value from each side.
pub proof fn lemma_join_datasets_matched(before: Dataset<u32>, after: Dataset<u32>)
    requires
        before.wf(),
        after.wf(),
    ensures
        join_entries(before.entry_views(), after.kv_map()).len() == matched_keys(
            before.kv_map(),
            after.kv_map(),
        ).len(),
        forall|t: int|
            0 <= t < join_entries(before.entry_views(), after.kv_map()).len() ==> {
                let rec = #[trigger] join_entries(before.entry_views(), after.kv_map())[t];
                &&& before.kv_map().contains_key(rec.0)
                &&& after.kv_map().contains_key(rec.0)
                &&& rec.1 == before.kv_map()[rec.0]
                &&& rec.2 == after.kv_map()[rec.0]
            },
        forall|s: int, t: int|
            0 <= s < t < join_entries(before.entry_views(), after.kv_map()).len() ==> lex_lt(
                (#[trigger] join_entries(before.entry_views(), after.kv_map())[s]).0,
                (#[trigger] join_entries(before.entry_views(), after.kv_map())[t]).0,
            ),
{
    broadcast use vstd::set::group_set_axioms, vstd::seq_lib::seq_to_set_is_finite;

    let evs = before.entry_views();
    let am = after.kv_map();
    before.lemma_entry_views_describe();
    after.lemma_entry_views_describe();
    assert forall|i: int, j: int| 0 <= i < j < evs.len() implies (#[trigger] evs[i]).0 != (
    #[trigger] evs[j]).0 by {
        assert(lex_lt(evs[i].0, evs[j].0));
        lemma_lex_irrefl(evs[i].0);
    }
    lemma_join_entries_matched(evs, am);
    lemma_join_entries_from(evs, am);
    lemma_join_entries_sorted(evs, am);
    assert forall|x: Seq<char>| #[trigger] view_keys(evs).to_set().contains(x) implies
        before.kv_map().contains_key(x) by {
        let i = choose|i: int| 0 <= i < view_keys(evs).len() && view_keys(evs)[i] == x;
        assert(evs[i].0 == x);
    }
    assert forall|x: Seq<char>| #[trigger] before.kv_map().contains_key(x) implies view_keys(
        evs,
    ).to_set().contains(x) by {
        let i = choose|i: int| 0 <= i < evs.len() && (#[trigger] evs[i]).0 == x;
        assert(view_keys(evs)[i] == x);
        assert(view_keys(evs).contains(x));
    }
    assert(view_keys(evs).to_set() =~= before.kv_map().dom());
    assert(view_keys(evs).to_set().intersect(am.dom()) =~= matched_keys(
        before.kv_map(),
        after.kv_map(),
    ));
    assert forall|t: int| 0 <= t < join_entries(evs, am).len() implies {
        let rec = #[trigger] join_entries(evs, am)[t];
        &&& before.kv_map().contains_key(rec.0)
        &&& after.kv_map().contains_key(rec.0)
        &&& rec.1 == before.kv_map()[rec.0]
        &&& rec.2 == after.kv_map()[rec.0]
    } by {
        let rec = join_entries(evs, am)[t];
        assert(comes_from(evs, rec));
        let i = choose|i: int| 0 <= i < evs.len() && (#[trigger] evs[i]) == (rec.0, rec.1);
        assert(before.kv_map()[evs[i].0] == evs[i].1);
    }
}

// ---------------------------------------------------------------------------
// Dataset builders
// ---------------------------------------------------------------------------

/// Adds one sample's total-sequence count to a dataset: the count is the
/// first `Total Sequences` line of its report, the key is the raw
/// directory name with every `_paired_` collapsed to `_` and then
/// padded.  A report without the labeled line contributes nothing.
pub fn add_total_sequences(ds: &mut Dataset<u32>, dir: String, lines: &Vec<String>) -> (r: Result<
    bool,
    MyError,
>)
    requires
        old(ds).wf(),
    ensures
        final(ds).wf(),
        ({
            let tot = spec_total_sequences(lines.deep_view());
            let key = pad_spec(replace_all(dir@, "_paired_"@, "_"@));
            match r {
                Ok(b) => tot is Ok && (if (tot->Ok_0) is None {
                    b == false && *final(ds) == *old(ds)
                } else {
                    b == true && key is Some && final(ds).kv_map() == old(ds).kv_map().insert(
                        key->0,
                        (tot->Ok_0)->0,
                    )
                }),
                Err(e) => *final(ds) == *old(ds) && (match tot {
                    Err(e2) => e == e2,
                    Ok(o) => o is Some && key is None && e == MyError::InvalidFileName,
                }),
            }
        }),
{
    let tot = match total_sequences_from_lines(lines) {
        Err(e) => {
            return Err(e);
        },
        Ok(None) => {
            return Ok(false);
        },
        Ok(Some(t)) => t,
    };
    proof {
        reveal_strlit("_paired_");
    }
    let nk = replace_sub(dir.as_str(), "_paired_", "_");
    let key = match zero_pad_dir(nk) {
        Err(e) => {
            return Err(e);
        },
        Ok(k) => k,
    };
    ds.insert(key, tot);
    Ok(true)
}

/// Adds one sample's per-base sequence-quality flag to a dataset: the
/// flag is taken from the first matching summary row, the key is the
/// padded raw directory name.  A summary without the test contributes
/// nothing.
pub fn add_summary_flag(ds: &mut Dataset<Flag>, dir: String, lines: &Vec<String>) -> (r: Result<
    bool,
    MyError,
>)
    requires
        old(ds).wf(),
    ensures
        final(ds).wf(),
        ({
            let fl = spec_flag_from_summary(lines.deep_view());
            let key = pad_spec(dir@);
            match r {
                Ok(b) => fl is Ok && (if (fl->Ok_0) is None {
                    b == false && *final(ds) == *old(ds)
                } else {
                    b == true && key is Some && final(ds).kv_map() == old(ds).kv_map().insert(
                        key->0,
                        (fl->Ok_0)->0,
                    )
                }),
                Err(e) => *final(ds) == *old(ds) && (match fl {
                    Err(e2) => e == e2,
                    Ok(o) => o is Some && key is None && e == MyError::InvalidFileName,
                }),
            }
        }),
{
    let fl = match flag_from_summary_lines(lines) {
        Err(e) => {
            return Err(e);
        },
        Ok(None) => {
            return Ok(false);
        },
        Ok(Some(f)) => f,
    };
    let key = match zero_pad_dir(dir) {
        Err(e) => {
            return Err(e);
        },
        Ok(k) => k,
    };
    ds.insert(key, fl);
    Ok(true)
}

} // verus!
