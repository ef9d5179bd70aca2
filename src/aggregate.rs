use crate::chunks::concat;
use crate::parse::{lemma_line_of_append, lemma_line_shorter, line_of, parse_line};
use crate::record::{Record, RecordView};
use fxhash::FxBuildHasher;
use std::collections::HashMap;
use vstd::prelude::*;
use vstd::slice::slice_to_vec;

verus! {

/// fxhash::FxHasher, the hasher of the tables; opaque here.
#[verifier::external_type_specification]
#[verifier::external_body]
pub struct ExFxHasher(fxhash::FxHasher);

/// std::hash::BuildHasherDefault, which fxhash::FxBuildHasher names; opaque here.
#[verifier::external_type_specification]
#[verifier::external_body]
#[verifier::reject_recursive_types(H)]
pub struct ExBuildHasherDefault<H>(std::hash::BuildHasherDefault<H>);

/// What a hash table of records holds, by the bytes of each key.
pub uninterp spec fn table_contents(m: HashMap<Vec<u8>, Record, FxBuildHasher>) -> Map<
    Seq<u8>,
    Record,
>;

/// Relies on HashMap::with_capacity_and_hasher: a new map holds nothing.
#[verifier::external_body]
fn table_new() -> (m: HashMap<Vec<u8>, Record, FxBuildHasher>)
    ensures
        table_contents(m).dom() == Set::<Seq<u8>>::empty(),
{
    HashMap::with_capacity_and_hasher(1_000, FxBuildHasher::default())
}

/// Relies on HashMap::get: the value stored under a key equal to `key`
/// (byte vectors compare element by element), if there is one.
#[verifier::external_body]
fn table_get(m: &HashMap<Vec<u8>, Record, FxBuildHasher>, key: &[u8]) -> (r: Option<Record>)
    ensures
        table_contents(*m).contains_key(key@) ==> r == Some(table_contents(*m)[key@]),
        !table_contents(*m).contains_key(key@) ==> r.is_none(),
{
    m.get(key).copied()
}

/// Relies on HashMap::insert: afterwards the key maps to the value, and
/// every other key keeps its value.
#[verifier::external_body]
fn table_insert(m: &mut HashMap<Vec<u8>, Record, FxBuildHasher>, key: Vec<u8>, r: Record)
    ensures
        table_contents(*final(m)) == table_contents(*old(m)).insert(key@, r),
{
    m.insert(key, r);
}

/// The key bytes of each entry.
pub open spec fn entry_keys(s: Seq<(Vec<u8>, Record)>) -> Seq<Seq<u8>> {
    s.map_values(|e: (Vec<u8>, Record)| e.0@)
}

/// The bytes of each key.
pub open spec fn key_views(s: Seq<Vec<u8>>) -> Seq<Seq<u8>> {
    s.map_values(|k: Vec<u8>| k@)
}

/// Relies on HashMap::keys: each key of the map comes out once, in some
/// order.
#[verifier::external_body]
fn table_keys(m: &HashMap<Vec<u8>, Record, FxBuildHasher>) -> (r: Vec<Vec<u8>>)
    ensures
        key_views(r@).no_duplicates(),
        forall|k: Seq<u8>| #[trigger]
            key_views(r@).contains(k) <==> table_contents(*m).contains_key(k),
{
    m.keys().cloned().collect()
}

/// Relies on HashMap::into_iter: each entry of the map comes out once, in
/// some order.
#[verifier::external_body]
fn table_entries(m: HashMap<Vec<u8>, Record, FxBuildHasher>) -> (r: Vec<(Vec<u8>, Record)>)
    ensures
        entry_keys(r@).no_duplicates(),
        forall|i: int|
            0 <= i < r@.len() ==> table_contents(m).contains_key((#[trigger] r@[i]).0@)
                && table_contents(m)[r@[i].0@] == r@[i].1,
        forall|k: Seq<u8>| #[trigger]
            table_contents(m).contains_key(k) ==> entry_keys(r@).contains(k),
{
    m.into_iter().collect()
}

/// The records' mathematical content.
pub open spec fn views_of(m: Map<Seq<u8>, Record>) -> Map<Seq<u8>, RecordView> {
    m.map_values(|r: Record| r@)
}

/// The statistics after one more observation `v` of category `c`.
pub open spec fn add_observation(m: Map<Seq<u8>, RecordView>, c: Seq<u8>, v: int) -> Map<
    Seq<u8>,
    RecordView,
> {
    if m.contains_key(c) {
        m.insert(c, m[c].with_value(v))
    } else {
        m.insert(c, RecordView::single(v))
    }
}

/// The statistics of a sequence of observations, taken in order.
pub open spec fn stats_of(obs: Seq<(Seq<u8>, int)>) -> Map<Seq<u8>, RecordView>
    decreases obs.len(),
{
    if obs.len() == 0 {
        Map::empty()
    } else {
        add_observation(stats_of(obs.drop_last()), obs.last().0, obs.last().1)
    }
}

/// The observations of a sequence of `category;value\n` lines, or `None`
/// when one of them is malformed.
pub open spec fn lines_of(s: Seq<u8>) -> Option<Seq<(Seq<u8>, int)>>
    decreases s.len(),
{
    if s.len() == 0 {
        Some(Seq::empty())
    } else {
        match line_of(s) {
            None => None,
            Some((c, v, rest)) => if rest.len() < s.len() {
                match lines_of(rest) {
                    None => None,
                    Some(l) => Some(seq![(c, v)] + l),
                }
            } else {
                None
            },
        }
    }
}

/// Both mappings combined: a category of one only keeps its record, one of
/// both gets the combination of its two records.
pub open spec fn merge_maps(a: Map<Seq<u8>, RecordView>, b: Map<Seq<u8>, RecordView>) -> Map<
    Seq<u8>,
    RecordView,
> {
    Map::new(
        |k: Seq<u8>| a.contains_key(k) || b.contains_key(k),
        |k: Seq<u8>|
            if a.contains_key(k) && b.contains_key(k) {
                a[k].combine(b[k])
            } else if a.contains_key(k) {
                a[k]
            } else {
                b[k]
            },
    )
}

/// The observations `seen` followed by those of `o`, if any.
pub open spec fn prepend(
    seen: Seq<(Seq<u8>, int)>,
    o: Option<Seq<(Seq<u8>, int)>>,
) -> Option<Seq<(Seq<u8>, int)>> {
    match o {
        None => None,
        Some(l) => Some(seen + l),
    }
}

/// The observations of data made of two runs of whole lines are those of
/// the first run followed by those of the second.
pub proof fn lemma_lines_of_append(a: Seq<u8>, b: Seq<u8>)
    requires
        lines_of(a) is Some,
    ensures
        lines_of(a + b) == prepend(lines_of(a).unwrap(), lines_of(b)),
    decreases a.len(),
{
    if a.len() == 0 {
        assert(a + b =~= b);
        match lines_of(b) {
            None => {},
            Some(l) => {
                assert(Seq::<(Seq<u8>, int)>::empty() + l =~= l);
            },
        }
    } else {
        let (c, v, rest) = line_of(a).unwrap();
        lemma_line_of_append(a, b);
        lemma_lines_of_append(rest, b);
        let la = lines_of(rest).unwrap();
        match lines_of(rest + b) {
            None => {},
            Some(l) => {
                assert(seq![(c, v)] + l =~= (seq![(c, v)] + la) + lines_of(b).unwrap());
            },
        }
    }
}

/// Folding an observation into the second of two merged mappings is the
/// same as folding it into their merge.
pub proof fn lemma_merge_add_observation(
    x: Map<Seq<u8>, RecordView>,
    y: Map<Seq<u8>, RecordView>,
    c: Seq<u8>,
    v: int,
)
    ensures
        add_observation(merge_maps(x, y), c, v) == merge_maps(x, add_observation(y, c, v)),
{
    assert(add_observation(merge_maps(x, y), c, v) =~= merge_maps(x, add_observation(y, c, v)));
}

/// The statistics of two runs of observations, one after the other, are the
/// merge of the statistics of each run.
pub proof fn lemma_stats_of_append(x: Seq<(Seq<u8>, int)>, y: Seq<(Seq<u8>, int)>)
    ensures
        stats_of(x + y) == merge_maps(stats_of(x), stats_of(y)),
    decreases y.len(),
{
    if y.len() == 0 {
        assert(x + y =~= x);
        assert(merge_maps(stats_of(x), stats_of(y)) =~= stats_of(x));
    } else {
        let e = y.last();
        assert((x + y).drop_last() =~= x + y.drop_last());
        lemma_stats_of_append(x, y.drop_last());
        lemma_merge_add_observation(stats_of(x), stats_of(y.drop_last()), e.0, e.1);
    }
}

/// Mappings merged one after another, starting from the empty mapping.
pub open spec fn merge_all(ms: Seq<Map<Seq<u8>, RecordView>>) -> Map<Seq<u8>, RecordView>
    decreases ms.len(),
{
    if ms.len() == 0 {
        Map::empty()
    } else {
        merge_maps(merge_all(ms.drop_last()), ms.last())
    }
}

/// The statistics of each span's observations.
pub open spec fn chunk_stats(cs: Seq<Seq<u8>>) -> Seq<Map<Seq<u8>, RecordView>> {
    cs.map_values(|c: Seq<u8>| stats_of(lines_of(c).unwrap()))
}

/// Cutting well-formed data into runs of whole lines, gathering each run on
/// its own and merging the results gives the statistics of the whole data:
/// the number of spans does not show in the result.
pub proof fn lemma_chunking_invisible(cs: Seq<Seq<u8>>)
    requires
        forall|i: int| 0 <= i < cs.len() ==> lines_of(#[trigger] cs[i]) is Some,
    ensures
        lines_of(concat(cs)) is Some,
        stats_of(lines_of(concat(cs)).unwrap()) == merge_all(chunk_stats(cs)),
    decreases cs.len(),
{
    if cs.len() == 0 {
        assert(lines_of(concat(cs)) == Some(Seq::<(Seq<u8>, int)>::empty()));
        assert(stats_of(Seq::<(Seq<u8>, int)>::empty()) =~= merge_all(chunk_stats(cs)));
    } else {
        let p = cs.drop_last();
        assert forall|i: int| 0 <= i < p.len() implies lines_of(#[trigger] p[i]) is Some by {
            assert(p[i] == cs[i]);
        }
        lemma_chunking_invisible(p);
        assert(lines_of(cs[cs.len() - 1]) is Some);
        lemma_lines_of_append(concat(p), cs.last());
        lemma_stats_of_append(lines_of(concat(p)).unwrap(), lines_of(cs.last()).unwrap());
        assert(chunk_stats(cs).drop_last() =~= chunk_stats(p));
    }
}

/// Every record is well formed and counts at most `total` observations.
pub open spec fn table_bounded(m: Map<Seq<u8>, Record>, total: nat) -> bool {
    forall|k: Seq<u8>| #[trigger]
        m.contains_key(k) ==> m[k].wf() && m[k].count <= total
}

/// A mapping from category bytes to running statistics.
pub struct Stats {
    table: HashMap<Vec<u8>, Record, FxBuildHasher>,
    total: usize,
}

impl View for Stats {
    type V = Map<Seq<u8>, RecordView>;

    closed spec fn view(&self) -> Map<Seq<u8>, RecordView> {
        views_of(table_contents(self.table))
    }
}

impl Stats {
    /// The number of observations behind the records.
    pub closed spec fn observations_spec(&self) -> nat {
        self.total as nat
    }

    /// Every record is well formed and counts at most the observations.
    pub closed spec fn wf(&self) -> bool {
        table_bounded(table_contents(self.table), self.total as nat)
    }

    /// What well-formedness says of the records.
    pub proof fn lemma_wf(&self)
        requires
            self.wf(),
        ensures
            forall|k: Seq<u8>| #[trigger]
                self@.contains_key(k) ==> self@[k].wf() && self@[k].count
                    <= self.observations_spec(),
    {
    }

    /// An empty mapping.
    pub fn new() -> (r: Stats)
        ensures
            r.wf(),
            r@ == Map::<Seq<u8>, RecordView>::empty(),
            r.observations_spec() == 0,
    {
        let table = table_new();
        let r = Stats { table, total: 0 };
        assert(r@ =~= Map::<Seq<u8>, RecordView>::empty());
        r
    }

    /// The number of observations behind the records.
    pub fn observations(&self) -> (n: usize)
        ensures
            n == self.observations_spec(),
    {
        self.total
    }

    /// The categories, each once, in no particular order.
    pub fn keys(&self) -> (r: Vec<Vec<u8>>)
        ensures
            key_views(r@).no_duplicates(),
            forall|k: Seq<u8>| #[trigger] key_views(r@).contains(k) <==> self@.contains_key(k),
    {
        table_keys(&self.table)
    }

    /// The record of a category, if it was observed.
    pub fn get(&self, key: &[u8]) -> (r: Option<Record>)
        ensures
            self@.contains_key(key@) ==> (r matches Some(x) && x@ == self@[key@]),
            !self@.contains_key(key@) ==> r.is_none(),
    {
        table_get(&self.table, key)
    }

    /// Folds the records of `other` into this mapping.
    pub fn merge(&mut self, other: Stats)
        requires
            old(self).wf(),
            other.wf(),
            old(self).observations_spec() + other.observations_spec() <= usize::MAX,
        ensures
            final(self).wf(),
            final(self)@ == merge_maps(old(self)@, other@),
            final(self).observations_spec() == old(self).observations_spec()
                + other.observations_spec(),
    {
        let ghost g0 = self@;
        let ghost o = other@;
        let ghost oc = table_contents(other.table);
        let ghost total0 = self.total;
        let other_total = other.total;
        self.total = self.total + other.total;
        let mut entries = table_entries(other.table);
        let ghost mut seen: Map<Seq<u8>, RecordView> = Map::empty();
        proof {
            assert(merge_maps(g0, seen) =~= g0);
        }
        while entries.len() > 0
            invariant
                self.total == total0 + other_total,
                table_bounded(oc, other_total as nat),
                o == views_of(oc),
                forall|k: Seq<u8>| #[trigger]
                    g0.contains_key(k) ==> g0[k].count <= total0,
                views_of(table_contents(self.table)) == merge_maps(g0, seen),
                table_bounded(table_contents(self.table), self.total as nat),
                entry_keys(entries@).no_duplicates(),
                forall|i: int|
                    0 <= i < entries@.len() ==> oc.contains_key((#[trigger] entries@[i]).0@)
                        && oc[entries@[i].0@] == entries@[i].1,
                forall|k: Seq<u8>| #[trigger]
                    oc.contains_key(k) ==> seen.contains_key(k) || entry_keys(entries@).contains(k),
                forall|k: Seq<u8>| #[trigger]
                    seen.contains_key(k) ==> oc.contains_key(k) && seen[k] == o[k]
                        && !entry_keys(entries@).contains(k),
            decreases entries.len(),
        {
            let ghost before = entries@;
            let (key, rec) = entries.pop().unwrap();
            let ghost k = key@;
            proof {
                assert(entry_keys(before).last() == k);
                assert(entry_keys(entries@) =~= entry_keys(before).drop_last());
                assert(before[before.len() - 1] == (key, rec));
                assert(!seen.contains_key(k));
                assert(!entry_keys(entries@).contains(k)) by {
                    if entry_keys(entries@).contains(k) {
                        let j = choose|j: int|
                            0 <= j < entry_keys(entries@).len() && entry_keys(entries@)[j] == k;
                        assert(entry_keys(before)[j] == entry_keys(before)[before.len() - 1]);
                    }
                }
                assert forall|i: int| 0 <= i < entries@.len() implies oc.contains_key(
                    (#[trigger] entries@[i]).0@,
                ) && oc[entries@[i].0@] == entries@[i].1 by {
                    assert(entries@[i] == before[i]);
                }
                assert forall|k2: Seq<u8>| #[trigger]
                    oc.contains_key(k2) && k2 != k && !seen.contains_key(
                        k2,
                    ) implies entry_keys(entries@).contains(k2) by {
                    let j = choose|j: int|
                        0 <= j < entry_keys(before).len() && entry_keys(before)[j] == k2;
                    assert(j != before.len() - 1);
                    assert(entry_keys(entries@)[j] == k2);
                }
                assert forall|k2: Seq<u8>| #[trigger]
                    seen.contains_key(k2) implies !entry_keys(entries@).contains(k2) by {
                    if entry_keys(entries@).contains(k2) {
                        let j = choose|j: int|
                            0 <= j < entry_keys(entries@).len() && entry_keys(entries@)[j] == k2;
                        assert(entry_keys(before)[j] == k2);
                    }
                }
                assert(rec.wf() && rec.count <= other_total);
                assert(o[k] == rec@);
            }
            match table_get(&self.table, key.as_slice()) {
                Some(mut g) => {
                    proof {
                        assert(views_of(table_contents(self.table)).contains_key(k));
                        assert(views_of(table_contents(self.table))[k] == g@);
                        assert(merge_maps(g0, seen)[k] == g@);
                        assert(g0.contains_key(k));
                        assert(g@ == g0[k]);
                    }
                    g.merge(&rec);
                    let ghost before_table = table_contents(self.table);
                    table_insert(&mut self.table, key, g);
                    proof {
                        assert(views_of(table_contents(self.table)) =~= views_of(
                            before_table,
                        ).insert(k, g@));
                        assert(merge_maps(g0, seen.insert(k, rec@)) =~= merge_maps(g0, seen).insert(
                            k,
                            g@,
                        ));
                        assert(views_of(table_contents(self.table)) =~= merge_maps(
                            g0,
                            seen.insert(k, rec@),
                        ));
                    }
                },
                None => {
                    proof {
                        assert(!views_of(table_contents(self.table)).contains_key(k));
                        assert(!merge_maps(g0, seen).contains_key(k));
                        assert(!g0.contains_key(k));
                    }
                    let ghost before_table = table_contents(self.table);
                    table_insert(&mut self.table, key, rec);
                    proof {
                        assert(views_of(table_contents(self.table)) =~= views_of(
                            before_table,
                        ).insert(k, rec@));
                        assert(merge_maps(g0, seen.insert(k, rec@)) =~= merge_maps(g0, seen).insert(
                            k,
                            rec@,
                        ));
                        assert(views_of(table_contents(self.table)) =~= merge_maps(
                            g0,
                            seen.insert(k, rec@),
                        ));
                    }
                },
            }
            proof {
                seen = seen.insert(k, rec@);
            }
        }
        proof {
            assert(seen =~= o);
        }
    }
}

/// Scans one newline-aligned span and gathers the statistics of each
/// category in it, or returns `None` when a line is malformed.
pub fn process_chunk(data: &[u8]) -> (r: Option<Stats>)
    ensures
        match lines_of(data@) {
            None => r.is_none(),
            Some(obs) => r matches Some(t) && t.wf() && t@ == stats_of(obs)
                && t.observations_spec() == obs.len() && obs.len() <= data@.len(),
        },
{
    let len = data.len();
    let mut table = table_new();
    let mut total: usize = 0;
    let mut cur = data;
    let ghost mut seen: Seq<(Seq<u8>, int)> = Seq::empty();
    proof {
        assert(seen + lines_of(data@).unwrap_or(seen) =~= lines_of(data@).unwrap_or(seen));
        assert(views_of(table_contents(table)) =~= stats_of(seen));
    }
    while cur.len() > 0
        invariant
            lines_of(data@) == prepend(seen, lines_of(cur@)),
            views_of(table_contents(table)) == stats_of(seen),
            total == seen.len(),
            len == data@.len(),
            seen.len() + cur@.len() <= data@.len(),
            table_bounded(table_contents(table), total as nat),
        decreases cur@.len(),
    {
        let (city, value, rest) = match parse_line(cur) {
            Some(t) => t,
            None => {
                return None;
            },
        };
        proof {
            lemma_line_shorter(cur@);
        }
        let ghost before_table = table_contents(table);
        let ghost rec_after: Record;
        match table_get(&table, city) {
            Some(mut rec) => {
                rec.add(value);
                proof {
                    rec_after = rec;
                }
                table_insert(&mut table, slice_to_vec(city), rec);
            },
            None => {
                let rec = Record::new(value);
                proof {
                    rec_after = rec;
                }
                table_insert(&mut table, slice_to_vec(city), rec);
            },
        }
        total = total + 1;
        proof {
            let x = (city@, value as int);
            let old_seen = seen;
            seen = seen.push(x);
            assert(seen.drop_last() =~= old_seen);
            assert(views_of(table_contents(table)) =~= views_of(before_table).insert(
                city@,
                rec_after@,
            ));
            assert(views_of(table_contents(table)) =~= stats_of(seen));
            match lines_of(rest@) {
                None => {},
                Some(l) => {
                    assert(old_seen + (seq![x] + l) =~= seen + l);
                },
            }
        }
        cur = rest;
    }
    proof {
        assert(seen + Seq::<(Seq<u8>, int)>::empty() =~= seen);
    }
    Some(Stats { table, total })
}

} // verus!
