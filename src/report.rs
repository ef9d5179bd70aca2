use crate::aggregate::{key_views, Stats};
use crate::record::{lemma_sum_bounds, Record, RecordView};
use vstd::prelude::*;

verus! {

/// `a` comes before `b` or equals it, comparing bytes from the first and
/// taking a prefix before the longer sequence.
pub open spec fn lex_le(a: Seq<u8>, b: Seq<u8>) -> bool
    decreases a.len(),
{
    if a.len() == 0 {
        true
    } else if b.len() == 0 {
        false
    } else if a[0] != b[0] {
        a[0] < b[0]
    } else {
        lex_le(a.skip(1), b.skip(1))
    }
}

/// Each sequence is lexicographically at most the next one.
pub open spec fn sorted_lex(s: Seq<Seq<u8>>) -> bool {
    forall|i: int| 0 <= i < s.len() - 1 ==> lex_le(#[trigger] s[i], s[i + 1])
}

/// Relies on slice::sort_unstable: the same keys, reordered so that each is
/// at most the next (vectors of bytes compare lexicographically).
#[verifier::external_body]
fn sort_keys(keys: &mut Vec<Vec<u8>>)
    ensures
        key_views(final(keys)@).to_multiset() == key_views(old(keys)@).to_multiset(),
        sorted_lex(key_views(final(keys)@)),
{
    keys.sort_unstable();
}

/// The decimal digits of `n`, most significant first.
pub open spec fn digits(n: nat) -> Seq<u8>
    decreases n,
{
    if n < 10 {
        seq![(0x30 + n) as u8]
    } else {
        digits(n / 10).push((0x30 + n % 10) as u8)
    }
}

/// The absolute value.
pub open spec fn abs(v: int) -> nat {
    if v < 0 { (-v) as nat } else { v as nat }
}

/// A value scaled by ten written with one fractional digit (`-23` is
/// `-2.3`).
pub open spec fn tenths_text(v: int) -> Seq<u8> {
    (if v < 0 { seq![0x2du8] } else { Seq::empty() }) + digits(abs(v) / 10) + seq![
        0x2eu8,
        (0x30 + abs(v) % 10) as u8,
    ]
}

/// `sum / count` rounded to the nearest integer, halves away from zero.
pub open spec fn rounded_average(sum: int, count: int) -> int {
    if sum >= 0 {
        (2 * sum + count) / (2 * count)
    } else {
        -((2 * (-sum) + count) / (2 * count))
    }
}

/// `name=min/avg/max` for one category.
pub open spec fn entry_text(k: Seq<u8>, r: RecordView) -> Seq<u8> {
    k + seq![0x3du8] + tenths_text(r.min) + seq![0x2fu8] + tenths_text(
        rounded_average(r.sum, r.count as int),
    ) + seq![0x2fu8] + tenths_text(r.max)
}

/// The entries of the categories `ks`, in that order, separated by `, `.
pub open spec fn entries_text(ks: Seq<Seq<u8>>, m: Map<Seq<u8>, RecordView>) -> Seq<u8>
    decreases ks.len(),
{
    if ks.len() == 0 {
        Seq::empty()
    } else if ks.len() == 1 {
        entry_text(ks[0], m[ks[0]])
    } else {
        entries_text(ks.drop_last(), m) + seq![0x2cu8, 0x20u8] + entry_text(ks.last(), m[ks.last()])
    }
}

/// The whole summary: the entries wrapped in braces.
pub open spec fn summary_text(ks: Seq<Seq<u8>>, m: Map<Seq<u8>, RecordView>) -> Seq<u8> {
    seq![0x7bu8] + entries_text(ks, m) + seq![0x7du8]
}

/// Appends the decimal digits of `n`.
pub fn push_digits(out: &mut Vec<u8>, n: u128)
    ensures
        final(out)@ == old(out)@ + digits(n as nat),
    decreases n,
{
    if n >= 10 {
        push_digits(out, n / 10);
    }
    out.push((0x30 + n % 10) as u8);
    proof {
        if n >= 10 {
            assert(final(out)@ =~= old(out)@ + digits(n as nat));
        } else {
            assert(final(out)@ =~= old(out)@ + digits(n as nat));
        }
    }
}

/// Appends a value scaled by ten with exactly one fractional digit.
pub fn push_tenths(out: &mut Vec<u8>, v: i128)
    requires
        v > i128::MIN,
    ensures
        final(out)@ == old(out)@ + tenths_text(v as int),
{
    let a: u128 = if v < 0 {
        out.push(0x2d);
        (-v) as u128
    } else {
        v as u128
    };
    let ghost mid = out@;
    push_digits(out, a / 10);
    out.push(0x2e);
    out.push((0x30 + a % 10) as u8);
    proof {
        assert(a == abs(v as int));
        assert(final(out)@ =~= old(out)@ + tenths_text(v as int));
    }
}

impl Record {
    /// The average of the observations, scaled by ten and rounded to the
    /// nearest integer, halves away from zero.
    pub fn average(&self) -> (r: i128)
        requires
            self.wf(),
        ensures
            r == rounded_average(self@.sum, self@.count as int),
    {
        proof {
            lemma_sum_bounds(self@);
            assert(32768 * self@.count <= 32768 * usize::MAX) by (nonlinear_arith)
                requires self@.count <= usize::MAX;
        }
        let c = self.count as u128;
        if self.sum >= 0 {
            let a = self.sum as u128;
            ((2 * a + c) / (2 * c)) as i128
        } else {
            let a = (-self.sum) as u128;
            -(((2 * a + c) / (2 * c)) as i128)
        }
    }
}

/// Appends `name=min/avg/max` for one category.
pub fn push_entry(out: &mut Vec<u8>, key: &[u8], r: &Record)
    requires
        r.wf(),
    ensures
        final(out)@ == old(out)@ + entry_text(key@, r@),
{
    let mut i: usize = 0;
    while i < key.len()
        invariant
            i <= key@.len(),
            out@ == old(out)@ + key@.take(i as int),
        decreases key@.len() - i,
    {
        out.push(key[i]);
        i = i + 1;
        proof {
            assert(out@ =~= old(out)@ + key@.take(i as int));
        }
    }
    out.push(0x3d);
    push_tenths(out, r.min as i128);
    out.push(0x2f);
    let avg = r.average();
    proof {
        assert(avg > i128::MIN) by {
            lemma_sum_bounds(r@);
            assert(32768 * r@.count <= 32768 * usize::MAX) by (nonlinear_arith)
                requires r@.count <= usize::MAX;
            let s = r@.sum;
            let c = r@.count as int;
            if s < 0 {
                assert((2 * (-s) + c) / (2 * c) <= 2 * (-s) + c) by (nonlinear_arith)
                    requires -s >= 0, c >= 1;
            } else {
                assert((2 * s + c) / (2 * c) >= 0) by (nonlinear_arith)
                    requires s >= 0, c >= 1;
            }
        }
    }
    push_tenths(out, avg);
    out.push(0x2f);
    push_tenths(out, r.max as i128);
    proof {
        assert(key@.take(key@.len() as int) =~= key@);
        assert(final(out)@ =~= old(out)@ + entry_text(key@, r@));
    }
}

/// Renders the statistics sorted by category bytes as
/// `{name=min/avg/max, ...}`, each value with exactly one fractional digit.
pub fn report(stats: &Stats) -> (r: Vec<u8>)
    requires
        stats.wf(),
    ensures
        exists|ks: Seq<Seq<u8>>|
            {
                &&& ks.no_duplicates()
                &&& ks.to_set() == stats@.dom()
                &&& sorted_lex(ks)
                &&& r@ == summary_text(ks, stats@)
            },
{
    broadcast use vstd::seq_lib::group_to_multiset_ensures;

    let mut keys = stats.keys();
    let ghost unsorted = key_views(keys@);
    sort_keys(&mut keys);
    let ghost ks = key_views(keys@);
    proof {
        unsorted.lemma_multiset_has_no_duplicates();
        ks.lemma_multiset_has_no_duplicates_conv();
        assert forall|k: Seq<u8>| #[trigger] ks.contains(k) <==> stats@.contains_key(k) by {
            assert(ks.contains(k) <==> ks.to_multiset().count(k) > 0);
            assert(unsorted.contains(k) <==> unsorted.to_multiset().count(k) > 0);
        }
        assert(ks.to_set() =~= stats@.dom());
        stats.lemma_wf();
    }
    let mut out: Vec<u8> = Vec::new();
    out.push(0x7b);
    let mut i: usize = 0;
    while i < keys.len()
        invariant
            ks == key_views(keys@),
            i <= keys@.len(),
            forall|k: Seq<u8>| #[trigger] ks.contains(k) <==> stats@.contains_key(k),
            forall|k: Seq<u8>| #[trigger]
                stats@.contains_key(k) ==> stats@[k].wf(),
            out@ == seq![0x7bu8] + entries_text(ks.take(i as int), stats@),
        decreases keys@.len() - i,
    {
        let key = keys[i].as_slice();
        proof {
            assert(ks[i as int] == key@);
            assert(ks.contains(key@));
        }
        let rec = match stats.get(key) {
            Some(x) => x,
            None => {
                assert(false);
                Record::new(0)
            },
        };
        if i > 0 {
            out.push(0x2c);
            out.push(0x20);
        }
        push_entry(&mut out, key, &rec);
        proof {
            let t = ks.take(i + 1);
            assert(t.drop_last() =~= ks.take(i as int));
            assert(t.last() == key@);
            if i == 0 {
                assert(t =~= seq![key@]);
            }
            assert(out@ =~= seq![0x7bu8] + entries_text(t, stats@));
        }
        i = i + 1;
    }
    out.push(0x7d);
    proof {
        assert(ks.take(ks.len() as int) =~= ks);
        assert(out@ =~= summary_text(ks, stats@));
    }
    out
}

} // verus!
