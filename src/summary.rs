use crate::aggregate::{
    chunk_stats, lemma_chunking_invisible, lines_of, merge_all, process_chunk, stats_of, Stats,
};
use crate::chunks::{concat, split_to_aligned_chunks, views};
use crate::aggregate::{lemma_lines_of_append, prepend};
use crate::parse::{lemma_line_of_prefix, lemma_line_parts, line_of};
use crate::report::{report, sorted_lex, summary_text};
use vstd::prelude::*;

verus! {

/// No category of the observations holds a newline byte.
pub open spec fn categories_without_newline(obs: Seq<(Seq<u8>, int)>) -> bool {
    forall|i: int| 0 <= i < obs.len() ==> !(#[trigger] obs[i]).0.contains(0x0a)
}

/// Well-formed data whose categories hold no newline, cut just after one of
/// its newlines, gives two runs of well-formed lines.
pub proof fn lemma_lines_split(a: Seq<u8>, b: Seq<u8>)
    requires
        lines_of(a + b) is Some,
        categories_without_newline(lines_of(a + b).unwrap()),
        a.len() == 0 || a.last() == 0x0a,
    ensures
        lines_of(a) is Some,
        lines_of(b) is Some,
    decreases a.len(),
{
    let s = a + b;
    if a.len() == 0 {
        assert(s =~= b);
    } else {
        let (c, v, rest) = line_of(s).unwrap();
        let nm = lemma_line_parts(s);
        let n = nm.0;
        let m = nm.1;
        let l = n + m + 2;
        let obs = lines_of(s).unwrap();
        assert(obs[0] == (c, v));
        assert(!c.contains(0x0a));
        // The first newline of `s` ends its first line.
        assert(a.len() >= l) by {
            let j = a.len() - 1;
            assert(s[j] == 0x0a);
            if j < n {
                assert(c[j] == s[j]);
            } else if j > n && j < l - 1 {
                assert(s.skip(n + 1)[j - n - 1] == s[j]);
            }
        }
        lemma_line_of_prefix(s, a.len() as int);
        assert(s.take(a.len() as int) =~= a);
        let a2 = a.skip(l);
        assert(s.take(a.len() as int).skip(l) =~= a2);
        assert(rest =~= a2 + b);
        assert(categories_without_newline(lines_of(rest).unwrap())) by {
            assert forall|i: int| 0 <= i < lines_of(rest).unwrap().len() implies !(#[trigger] lines_of(
                rest,
            ).unwrap()[i]).0.contains(0x0a) by {
                assert(obs[i + 1] == lines_of(rest).unwrap()[i]);
            }
        }
        if a2.len() > 0 {
            assert(a2.last() == a.last());
        }
        lemma_lines_split(a2, b);
    }
}

/// Well-formed data whose categories hold no newline, cut into spans that
/// each end just after a newline (but maybe the last), gives spans that are
/// each well formed.
pub proof fn lemma_spans_well_formed(cs: Seq<Seq<u8>>)
    requires
        lines_of(concat(cs)) is Some,
        categories_without_newline(lines_of(concat(cs)).unwrap()),
        forall|i: int| 0 <= i < cs.len() - 1 ==> (#[trigger] cs[i]).len() >= 1 && cs[i].last() == 0x0a,
    ensures
        forall|i: int| 0 <= i < cs.len() ==> lines_of(#[trigger] cs[i]) is Some,
    decreases cs.len(),
{
    if cs.len() > 0 {
        let p = cs.drop_last();
        let a = concat(p);
        if p.len() > 0 {
            assert(p[p.len() - 1] == cs[p.len() - 1]);
            assert(a.last() == p.last().last());
        }
        lemma_lines_split(a, cs.last());
        lemma_lines_of_append(a, cs.last());
        let whole = lines_of(concat(cs)).unwrap();
        let la = lines_of(a).unwrap();
        assert(whole == la + lines_of(cs.last()).unwrap());
        assert(categories_without_newline(la)) by {
            assert forall|i: int| 0 <= i < la.len() implies !(#[trigger] la[i]).0.contains(0x0a) by {
                assert(whole[i] == la[i]);
            }
        }
        assert forall|i: int| 0 <= i < p.len() - 1 implies (#[trigger] p[i]).len() >= 1 && p[i].last()
            == 0x0a by {
            assert(p[i] == cs[i]);
        }
        lemma_spans_well_formed(p);
        assert forall|i: int| 0 <= i < cs.len() implies lines_of(#[trigger] cs[i]) is Some by {
            if i < p.len() {
                assert(p[i] == cs[i]);
            }
        }
    }
}

/// One more span adds its bytes to the concatenation, which never outgrows
/// that of all the spans.
pub proof fn lemma_concat_take(s: Seq<Seq<u8>>, i: int)
    requires
        0 <= i < s.len(),
    ensures
        concat(s.take(i + 1)) == concat(s.take(i)) + s[i],
        concat(s.take(i + 1)).len() <= concat(s).len(),
    decreases s.len(),
{
    assert(s.take(i + 1).drop_last() =~= s.take(i));
    if i + 1 < s.len() {
        lemma_concat_take(s.drop_last(), i);
        assert(s.drop_last().take(i + 1) =~= s.take(i + 1));
        assert(s.drop_last().take(i) =~= s.take(i));
    } else {
        assert(s.take(i + 1) =~= s);
    }
}

/// Gathers the statistics of `data` over at most `workers` newline-aligned
/// spans, one after another, and renders the summary. `None` when a line of
/// a span is malformed, which is always the case when `data` itself is not
/// made of well-formed lines.
pub fn summarize(data: &[u8], workers: usize) -> (r: Option<Vec<u8>>)
    requires
        workers >= 1,
    ensures
        lines_of(data@) is None ==> r is None,
        lines_of(data@) is Some && categories_without_newline(lines_of(data@).unwrap()) ==> r is Some,
        r matches Some(out) ==> lines_of(data@) is Some && exists|ks: Seq<Seq<u8>>|
            {
                &&& ks.no_duplicates()
                &&& ks.to_set() == stats_of(lines_of(data@).unwrap()).dom()
                &&& sorted_lex(ks)
                &&& out@ == summary_text(ks, stats_of(lines_of(data@).unwrap()))
            },
{
    let len = data.len();
    let chunks = split_to_aligned_chunks(data, workers);
    let ghost cs = views(chunks@);
    let mut global = Stats::new();
    let mut i: usize = 0;
    let ghost clean = lines_of(data@) is Some && categories_without_newline(
        lines_of(data@).unwrap(),
    );
    proof {
        if clean {
            assert forall|j: int| 0 <= j < cs.len() - 1 implies (#[trigger] cs[j]).len() >= 1
                && cs[j].last() == 0x0a by {
                assert(cs[j] == chunks@[j]@);
            }
            lemma_spans_well_formed(cs);
        }
        assert(cs.take(0) =~= Seq::<Seq<u8>>::empty());
        assert(chunk_stats(cs.take(0)) =~= Seq::<Map<Seq<u8>, crate::record::RecordView>>::empty());
    }
    while i < chunks.len()
        invariant
            cs == views(chunks@),
            concat(cs) == data@,
            len == data@.len(),
            i <= chunks@.len(),
            global.wf(),
            global.observations_spec() <= concat(cs.take(i as int)).len(),
            forall|j: int| 0 <= j < i ==> lines_of(#[trigger] cs[j]) is Some,
            clean == (lines_of(data@) is Some && categories_without_newline(
                lines_of(data@).unwrap(),
            )),
            clean ==> forall|j: int| 0 <= j < cs.len() ==> lines_of(#[trigger] cs[j]) is Some,
            global@ == merge_all(chunk_stats(cs.take(i as int))),
        decreases chunks@.len() - i,
    {
        let part = match process_chunk(chunks[i]) {
            Some(p) => p,
            None => {
                proof {
                    assert(cs[i as int] == chunks@[i as int]@);
                    assert(lines_of(cs[i as int]) is None);
                    assert(!clean);
                }
                return None;
            },
        };
        proof {
            assert(cs[i as int] == chunks@[i as int]@);
            lemma_concat_take(cs, i as int);
        }
        global.merge(part);
        proof {
            let t = cs.take(i + 1);
            assert(chunk_stats(t).drop_last() =~= chunk_stats(cs.take(i as int)));
            assert(chunk_stats(t).last() == stats_of(lines_of(cs[i as int]).unwrap()));
        }
        i = i + 1;
    }
    proof {
        assert(cs.take(i as int) =~= cs);
        lemma_chunking_invisible(cs);
    }
    Some(report(&global))
}

} // verus!
