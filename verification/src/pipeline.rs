use vstd::prelude::*;
use crate::records::{NL, first_at, lemma_first_at, lines, aligned, concat_all};
use crate::agg::{AggModel, mean_of};
use crate::mapping::{Mapping, map_merge, map_step, count_of};
use crate::tally::{ParseError, chunk_tally, tally_chunk, tally_records, tallies_merged,
    lemma_chunking_invariance};
use crate::splitter::{split_stream, no_nl_in};

verus! {

/// Why the pipeline failed: the splitter could not realign a block, or
/// some chunk held a malformed record.
#[derive(Clone, Copy, Debug, PartialEq, Eq, Structural)]
pub enum PipelineError {
    Alignment,
    Parse(ParseError),
}

/// The views of a sequence of mappings.
pub open spec fn views_of(ps: Seq<Mapping>) -> Seq<Map<Seq<u8>, AggModel>> {
    ps.map_values(|p: Mapping| p@)
}

/// The merge, in order, of a sequence of aggregate maps.
pub open spec fn merge_all(ms: Seq<Map<Seq<u8>, AggModel>>) -> Map<Seq<u8>, AggModel>
    decreases ms.len(),
{
    if ms.len() == 0 {
        Map::empty()
    } else {
        map_merge(ms[0], merge_all(ms.skip(1)))
    }
}

/// The observations recorded for `k` across a sequence of maps.
pub open spec fn key_count_sum(ms: Seq<Map<Seq<u8>, AggModel>>, k: Seq<u8>) -> nat
    decreases ms.len(),
{
    if ms.len() == 0 {
        0
    } else {
        count_of(ms[0], k) + key_count_sum(ms.skip(1), k)
    }
}

/// Merging adds counts per key, with no well-formedness needed.
pub proof fn lemma_map_merge_counts(m1: Map<Seq<u8>, AggModel>, m2: Map<Seq<u8>, AggModel>)
    ensures
        forall|k: Seq<u8>|
            count_of(map_merge(m1, m2), k) == count_of(m1, k) + #[trigger] count_of(m2, k),
{
}

/// The merge of a map sequence records, for each key, the sum of the
/// counts the maps record.
pub proof fn lemma_merge_all_counts(ms: Seq<Map<Seq<u8>, AggModel>>)
    ensures
        forall|k: Seq<u8>| count_of(merge_all(ms), k) == #[trigger] key_count_sum(ms, k),
    decreases ms.len(),
{
    if ms.len() > 0 {
        lemma_merge_all_counts(ms.skip(1));
        lemma_map_merge_counts(ms[0], merge_all(ms.skip(1)));
        assert forall|k: Seq<u8>| count_of(merge_all(ms), k) == #[trigger] key_count_sum(ms, k) by {
            assert(count_of(map_merge(ms[0], merge_all(ms.skip(1))), k) == count_of(ms[0], k)
                + count_of(merge_all(ms.skip(1)), k));
            assert(count_of(merge_all(ms.skip(1)), k) == key_count_sum(ms.skip(1), k));
        }
    }
}

/// Dropping a prefix of the maps never increases a key's total count.
pub proof fn lemma_key_count_skip_le(ms: Seq<Map<Seq<u8>, AggModel>>, i: int, k: Seq<u8>)
    requires
        0 <= i <= ms.len(),
    ensures
        key_count_sum(ms.skip(i), k) <= key_count_sum(ms, k),
    decreases i,
{
    if i == 0 {
        assert(ms.skip(0) =~= ms);
    } else {
        lemma_key_count_skip_le(ms, i - 1, k);
        assert(ms.skip(i - 1)[0] == ms[i - 1]);
        assert(ms.skip(i - 1).skip(1) =~= ms.skip(i));
    }
}

/// When a prefix of the chunks tallies cleanly and the next one fails,
/// the merged tally is that first failure.
pub proof fn lemma_tallies_merged_err(cs: Seq<Seq<u8>>, j: int)
    requires
        0 <= j < cs.len(),
        forall|i: int| 0 <= i < j ==> chunk_tally(#[trigger] cs[i]) is Ok,
        chunk_tally(cs[j]) is Err,
    ensures
        tallies_merged(cs) == chunk_tally(cs[j]),
    decreases j,
{
    if j == 0 {
    } else {
        let rest = cs.skip(1);
        assert forall|i: int| 0 <= i < j - 1 implies chunk_tally(#[trigger] rest[i]) is Ok by {
            assert(rest[i] == cs[i + 1]);
        }
        assert(rest[j - 1] == cs[j]);
        lemma_tallies_merged_err(rest, j - 1);
        assert(chunk_tally(cs[0]) is Ok);
    }
}

/// When every chunk tallies cleanly, the merged tally is the in-order
/// merge of the per-chunk maps.
pub proof fn lemma_tallies_merged_ok(cs: Seq<Seq<u8>>, ms: Seq<Map<Seq<u8>, AggModel>>)
    requires
        cs.len() == ms.len(),
        forall|i: int| 0 <= i < cs.len()
            ==> chunk_tally(#[trigger] cs[i]) == Ok::<Map<Seq<u8>, AggModel>, ParseError>(ms[i]),
    ensures
        tallies_merged(cs) == Ok::<Map<Seq<u8>, AggModel>, ParseError>(merge_all(ms)),
    decreases cs.len(),
{
    if cs.len() > 0 {
        let crest = cs.skip(1);
        let mrest = ms.skip(1);
        assert forall|i: int| 0 <= i < crest.len()
            implies chunk_tally(#[trigger] crest[i]) == Ok::<Map<Seq<u8>, AggModel>, ParseError>(
                mrest[i],
            ) by {
            assert(crest[i] == cs[i + 1]);
            assert(mrest[i] == ms[i + 1]);
        }
        lemma_tallies_merged_ok(crest, mrest);
        assert(chunk_tally(cs[0]) == Ok::<Map<Seq<u8>, AggModel>, ParseError>(ms[0]));
    }
}

/// A tally can add at most one observation per record.
pub proof fn lemma_tally_records_counts(
    m: Map<Seq<u8>, AggModel>,
    rs: Seq<Seq<u8>>,
    mr: Map<Seq<u8>, AggModel>,
)
    requires
        tally_records(m, rs) == Ok::<Map<Seq<u8>, AggModel>, ParseError>(mr),
    ensures
        forall|k: Seq<u8>| #[trigger] count_of(mr, k) <= count_of(m, k) + rs.len(),
    decreases rs.len(),
{
    if rs.len() > 0 {
        match crate::tally::record_parse(rs[0]) {
            Ok((k0, v)) => {
                let m1 = map_step(m, k0, v);
                lemma_tally_records_counts(m1, rs.skip(1), mr);
                assert forall|k: Seq<u8>|
                    #[trigger] count_of(mr, k) <= count_of(m, k) + rs.len() by {
                    assert(count_of(mr, k) <= count_of(m1, k) + rs.skip(1).len());
                    if k != k0 {
                        assert(count_of(m1, k) == count_of(m, k));
                    }
                }
            },
            Err(_) => {},
        }
    }
}

/// A byte string holds no more complete records than it has bytes.
pub proof fn lemma_lines_count(s: Seq<u8>)
    ensures
        lines(s).len() <= s.len(),
    decreases s.len(),
{
    lemma_first_at(s, NL);
    let r = first_at(s, NL);
    if r != -1 {
        lemma_lines_count(s.skip(r + 1));
    }
}

/// Reduces the partial mappings of the chunk aggregators into one final
/// mapping, merging them in order; zero partials yield the empty
/// mapping, one partial carries through unchanged.
pub fn reduce(partials: &Vec<Mapping>) -> (r: Mapping)
    requires
        forall|i: int| 0 <= i < partials@.len() ==> (#[trigger] partials@[i]).wf(),
        forall|k: Seq<u8>| #[trigger] key_count_sum(views_of(partials@), k) <= u64::MAX,
    ensures
        r.wf(),
        r@ == merge_all(views_of(partials@)),
{
    let ghost vs = views_of(partials@);
    let mut acc = Mapping::new();
    let mut j = partials.len();
    proof {
        assert(vs.skip(partials@.len() as int) =~= Seq::<Map<Seq<u8>, AggModel>>::empty());
    }
    while j > 0
        invariant
            j <= partials@.len(),
            vs == views_of(partials@),
            forall|i: int| 0 <= i < partials@.len() ==> (#[trigger] partials@[i]).wf(),
            forall|k: Seq<u8>| #[trigger] key_count_sum(vs, k) <= u64::MAX,
            acc.wf(),
            acc@ == merge_all(vs.skip(j as int)),
        decreases j,
    {
        let ghost jj = j as int;
        proof {
            assert(vs.skip(jj - 1)[0] == vs[jj - 1]);
            assert(vs.skip(jj - 1).skip(1) =~= vs.skip(jj));
            lemma_merge_all_counts(vs.skip(jj));
            assert forall|k: Seq<u8>|
                count_of(acc@, k) + #[trigger] count_of(partials@[jj - 1]@, k)
                    <= u64::MAX by {
                lemma_key_count_skip_le(vs, jj - 1, k);
                assert(key_count_sum(vs.skip(jj - 1), k)
                    == count_of(vs[jj - 1], k) + key_count_sum(vs.skip(jj), k));
                assert(vs[jj - 1] == partials@[jj - 1]@);
            }
        }
        acc.merge_from(&partials[j - 1]);
        j = j - 1;
        proof {
            crate::mapping::lemma_map_merge_comm(merge_all(vs.skip(jj)), vs[jj - 1]);
            assert(acc@ == map_merge(vs[jj - 1], merge_all(vs.skip(jj))));
            assert(acc@ == merge_all(vs.skip(jj - 1)));
        }
    }
    proof {
        assert(vs.skip(0) =~= vs);
    }
    acc
}

/// Runs the whole pipeline over an in-memory byte stream: split into
/// record-aligned chunks of at most `block_size + margin` bytes,
/// aggregate every chunk on its own, and reduce the per-chunk mappings
/// into one. The result equals the tally of the unsplit stream, whatever
/// block size was chosen.
pub fn run_pipeline(data: &Vec<u8>, block_size: usize, margin: usize) -> (r: Result<
    Mapping,
    PipelineError,
>)
    requires
        1 <= block_size,
        block_size + margin <= usize::MAX,
    ensures
        r matches Ok(m) ==> m.wf() && chunk_tally(data@) == Ok::<Map<Seq<u8>, AggModel>, ParseError>(m@),
        r matches Err(e) ==> (e matches PipelineError::Parse(pe)
            ==> chunk_tally(data@) == Err::<Map<Seq<u8>, AggModel>, ParseError>(pe)),
        r == Err::<Mapping, PipelineError>(PipelineError::Alignment) ==> exists|s: int|
            0 <= s && s + block_size + margin < data@.len() && #[trigger] no_nl_in(
                data@,
                s,
                s + block_size + margin,
            ),
{
    let chunks = match split_stream(data, block_size, margin) {
        Err(_) => {
            return Err(PipelineError::Alignment);
        },
        Ok(c) => c,
    };
    let ghost cviews = chunks@.map_values(|c: Vec<u8>| c@);
    let mut rest = chunks;
    let mut partials: Vec<Mapping> = Vec::new();
    proof {
        assert(rest@.map_values(|c: Vec<u8>| c@) =~= cviews.skip(0));
    }
    while rest.len() > 0
        invariant
            partials@.len() + rest@.len() == cviews.len(),
            rest@.map_values(|c: Vec<u8>| c@) == cviews.skip(partials@.len() as int),
            concat_all(cviews) == data@,
            forall|i: int| 0 <= i < cviews.len() - 1 ==> aligned(#[trigger] cviews[i]),
            forall|i: int| 0 <= i < partials@.len() ==> (#[trigger] partials@[i]).wf(),
            forall|i: int| 0 <= i < partials@.len()
                ==> chunk_tally(cviews[i]) == Ok::<Map<Seq<u8>, AggModel>, ParseError>(
                    (#[trigger] partials@[i])@,
                ),
        decreases rest@.len(),
    {
        let ghost np = partials@.len() as int;
        let ghost oldrest = rest@;
        let c = rest.remove(0);
        proof {
            assert(oldrest.map_values(|c2: Vec<u8>| c2@)[0] == c@);
            assert(c@ == cviews[np]);
            assert(rest@ =~= oldrest.skip(1));
            let rv = rest@.map_values(|c2: Vec<u8>| c2@);
            let ov = oldrest.map_values(|c2: Vec<u8>| c2@);
            assert(ov == cviews.skip(np));
            assert forall|t: int| 0 <= t < rv.len() implies rv[t] == #[trigger] cviews.skip(
                np + 1,
            )[t] by {
                assert(rest@[t] == oldrest[t + 1]);
                assert(rv[t] == rest@[t]@);
                assert(ov[t + 1] == oldrest[t + 1]@);
                assert(cviews.skip(np)[t + 1] == cviews[np + 1 + t]);
                assert(cviews.skip(np + 1)[t] == cviews[np + 1 + t]);
            }
            assert(rv =~= cviews.skip(np + 1));
        }
        match tally_chunk(c) {
            Err(e) => {
                proof {
                    lemma_chunking_invariance(cviews);
                    assert forall|i: int| 0 <= i < np implies chunk_tally(
                        #[trigger] cviews[i],
                    ) is Ok by {
                        assert(chunk_tally(cviews[i]) == Ok::<Map<Seq<u8>, AggModel>, ParseError>(
                            (partials@[i])@,
                        ));
                    }
                    lemma_tallies_merged_err(cviews, np);
                    assert(chunk_tally(data@) == Err::<Map<Seq<u8>, AggModel>, ParseError>(e));
                }
                return Err(PipelineError::Parse(e));
            },
            Ok(p) => {
                let ghost oldp = partials@;
                partials.push(p);
                proof {
                    assert forall|i: int| 0 <= i < partials@.len()
                        implies chunk_tally(cviews[i]) == Ok::<Map<Seq<u8>, AggModel>, ParseError>(
                            (#[trigger] partials@[i])@,
                        ) by {
                        if i < partials@.len() - 1 {
                            assert(partials@[i] == oldp[i]);
                        }
                    }
                }
            },
        }
    }
    let ghost vs = views_of(partials@);
    proof {
        lemma_chunking_invariance(cviews);
        assert(partials@.len() == cviews.len());
        assert forall|i: int| 0 <= i < cviews.len()
            implies chunk_tally(#[trigger] cviews[i]) == Ok::<Map<Seq<u8>, AggModel>, ParseError>(
                vs[i],
            ) by {
            assert(vs[i] == partials@[i]@);
        }
        lemma_tallies_merged_ok(cviews, vs);
        assert(chunk_tally(data@) == Ok::<Map<Seq<u8>, AggModel>, ParseError>(merge_all(vs)));
        // every key's total count is at most the stream's byte count
        lemma_merge_all_counts(vs);
        lemma_tally_records_counts(Map::empty(), lines(data@), merge_all(vs));
        lemma_lines_count(data@);
        vstd::std_specs::vec::axiom_spec_len(data);
        assert forall|k: Seq<u8>| #[trigger] key_count_sum(vs, k) <= u64::MAX by {
            assert(key_count_sum(vs, k) == count_of(merge_all(vs), k));
            assert(count_of(merge_all(vs), k) <= count_of(Map::<Seq<u8>, AggModel>::empty(), k)
                + lines(data@).len());
            assert(count_of(Map::<Seq<u8>, AggModel>::empty(), k) == 0);
            assert(data@.len() <= usize::MAX);
            assert(usize::MAX <= u64::MAX);
        }
    }
    let merged = reduce(&partials);
    Ok(merged)
}

/// One key's finalized report: bounds, count, and the mean computed once
/// from the folded sum.
pub struct KeyStats {
    pub key: Vec<u8>,
    pub low: i64,
    pub high: i64,
    pub mean_tenths: i64,
    pub count: u64,
}

/// Finalizes a mapping: computes each key's mean exactly once, after all
/// observations are folded in, and reports it beside the bounds.
pub fn finalize(m: &Mapping) -> (r: Vec<KeyStats>)
    requires
        m.wf(),
    ensures
        r@.len() == m.entries@.len(),
        forall|i: int| 0 <= i < r@.len() ==> {
            let e = #[trigger] m.entries@[i];
            &&& r@[i].key@ == e.key@
            &&& r@[i].low == e.agg@.low
            &&& r@[i].high == e.agg@.high
            &&& r@[i].count == e.agg@.count
            &&& r@[i].mean_tenths == mean_of(e.agg@.sum, e.agg@.count as int)
        },
{
    let mut r: Vec<KeyStats> = Vec::new();
    let mut i: usize = 0;
    while i < m.entries.len()
        invariant
            i <= m.entries@.len(),
            m.wf(),
            r@.len() == i,
            forall|t: int| 0 <= t < i ==> {
                let e = #[trigger] m.entries@[t];
                &&& r@[t].key@ == e.key@
                &&& r@[t].low == e.agg@.low
                &&& r@[t].high == e.agg@.high
                &&& r@[t].count == e.agg@.count
                &&& r@[t].mean_tenths == mean_of(e.agg@.sum, e.agg@.count as int)
            },
        decreases m.entries@.len() - i,
    {
        let e = &m.entries[i];
        let key = crate::mapping::copy_key(&e.key);
        let mean = e.agg.mean_tenths();
        r.push(KeyStats { key, low: e.agg.low, high: e.agg.high, mean_tenths: mean, count: e.agg.count });
        i = i + 1;
    }
    r
}

} // verus!
