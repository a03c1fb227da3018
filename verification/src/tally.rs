use vstd::prelude::*;
use crate::records::{NL, SEMI, first_at, lemma_first_at, lemma_first_at_exact, lines,
    lemma_lines_none, lemma_lines_unfold, lemma_lines_append, aligned, concat_all};
use crate::value::{value_of, parse_value};
use crate::agg::AggModel;
use crate::mapping::{Mapping, map_step, map_merge, count_of, lemma_map_merge_empty,
    lemma_map_merge_step};

verus! {

/// Why a chunk could not be aggregated: a record without the key/value
/// delimiter, or a value field that is not a well-formed number.
#[derive(Clone, Copy, Debug, PartialEq, Eq, Structural)]
pub enum ParseError {
    MissingDelimiter,
    BadValue,
}

/// One record splits at its first delimiter into a key and a value
/// field; the value field must denote a number.
pub open spec fn record_parse(r: Seq<u8>) -> Result<(Seq<u8>, int), ParseError> {
    let d = first_at(r, SEMI);
    if d == -1 {
        Err(ParseError::MissingDelimiter)
    } else {
        match value_of(r.skip(d + 1)) {
            Some(v) => Ok((r.take(d), v)),
            None => Err(ParseError::BadValue),
        }
    }
}

/// Folds a sequence of records into an aggregate map, stopping at the
/// first malformed record.
pub open spec fn tally_records(
    m: Map<Seq<u8>, AggModel>,
    rs: Seq<Seq<u8>>,
) -> Result<Map<Seq<u8>, AggModel>, ParseError>
    decreases rs.len(),
{
    if rs.len() == 0 {
        Ok(m)
    } else {
        match record_parse(rs[0]) {
            Ok((k, v)) => tally_records(map_step(m, k, v), rs.skip(1)),
            Err(e) => Err(e),
        }
    }
}

/// The aggregate map of one chunk: every complete record folded in, in
/// order, or the first parse failure.
pub open spec fn chunk_tally(s: Seq<u8>) -> Result<Map<Seq<u8>, AggModel>, ParseError> {
    tally_records(Map::empty(), lines(s))
}

/// Folding a concatenation of record lists folds the first list, then
/// the second from where the first left off.
pub proof fn lemma_tally_records_append(
    m: Map<Seq<u8>, AggModel>,
    rs1: Seq<Seq<u8>>,
    rs2: Seq<Seq<u8>>,
)
    ensures
        tally_records(m, rs1 + rs2) == (match tally_records(m, rs1) {
            Ok(m1) => tally_records(m1, rs2),
            Err(e) => Err(e),
        }),
    decreases rs1.len(),
{
    if rs1.len() == 0 {
        assert(rs1 + rs2 =~= rs2);
    } else {
        assert((rs1 + rs2)[0] == rs1[0]);
        assert((rs1 + rs2).skip(1) =~= rs1.skip(1) + rs2);
        match record_parse(rs1[0]) {
            Ok((k, v)) => {
                lemma_tally_records_append(map_step(m, k, v), rs1.skip(1), rs2);
            },
            Err(_) => {},
        }
    }
}

/// A fold that starts from a merged map equals the fold from the right
/// operand alone, merged into the left operand afterwards.
pub proof fn lemma_tally_records_merge(
    m1: Map<Seq<u8>, AggModel>,
    m2: Map<Seq<u8>, AggModel>,
    rs: Seq<Seq<u8>>,
)
    ensures
        tally_records(map_merge(m1, m2), rs) == (match tally_records(m2, rs) {
            Ok(mr) => Ok::<Map<Seq<u8>, AggModel>, ParseError>(map_merge(m1, mr)),
            Err(e) => Err(e),
        }),
    decreases rs.len(),
{
    if rs.len() == 0 {
    } else {
        match record_parse(rs[0]) {
            Ok((k, v)) => {
                lemma_map_merge_step(m1, m2, k, v);
                lemma_tally_records_merge(m1, map_step(m2, k, v), rs.skip(1));
            },
            Err(_) => {},
        }
    }
}

/// The tally of a concatenation split at an aligned boundary is the
/// merge of the two tallies; a failure on either side is the failure of
/// the whole, the left side's first.
pub proof fn lemma_chunk_tally_append(a: Seq<u8>, b: Seq<u8>)
    requires
        aligned(a),
    ensures
        chunk_tally(a + b) == (match (chunk_tally(a), chunk_tally(b)) {
            (Ok(ma), Ok(mb)) => Ok::<Map<Seq<u8>, AggModel>, ParseError>(map_merge(ma, mb)),
            (Err(e), _) => Err(e),
            (_, Err(e)) => Err(e),
        }),
{
    lemma_lines_append(a, b);
    lemma_tally_records_append(Map::empty(), lines(a), lines(b));
    match chunk_tally(a) {
        Ok(ma) => {
            lemma_map_merge_empty(ma);
            lemma_tally_records_merge(ma, Map::empty(), lines(b));
        },
        Err(_) => {},
    }
}

/// The merge, in order, of the tallies of a sequence of chunks; the
/// first failure wins.
pub open spec fn tallies_merged(cs: Seq<Seq<u8>>) -> Result<Map<Seq<u8>, AggModel>, ParseError>
    decreases cs.len(),
{
    if cs.len() == 0 {
        Ok(Map::empty())
    } else {
        match (chunk_tally(cs[0]), tallies_merged(cs.skip(1))) {
            (Ok(m), Ok(r)) => Ok(map_merge(m, r)),
            (Err(e), _) => Err(e),
            (_, Err(e)) => Err(e),
        }
    }
}

/// Chunking invariance: when every chunk but possibly the last ends on a
/// record boundary, merging the per-chunk tallies yields exactly the
/// tally of the whole stream, whatever the chunk sizes were.
pub proof fn lemma_chunking_invariance(cs: Seq<Seq<u8>>)
    requires
        forall|i: int| 0 <= i < cs.len() - 1 ==> aligned(#[trigger] cs[i]),
    ensures
        tallies_merged(cs) == chunk_tally(concat_all(cs)),
    decreases cs.len(),
{
    if cs.len() == 0 {
        lemma_first_at(Seq::empty(), NL);
        assert(lines(Seq::empty()) =~= Seq::<Seq<u8>>::empty());
    } else if cs.len() == 1 {
        assert(cs.skip(1).len() == 0);
        assert(concat_all(cs) =~= cs[0]);
        assert(tallies_merged(cs.skip(1)) == Ok::<Map<Seq<u8>, AggModel>, ParseError>(Map::empty()));
        match chunk_tally(cs[0]) {
            Ok(m) => {
                lemma_map_merge_empty(m);
                assert(tallies_merged(cs) == Ok::<Map<Seq<u8>, AggModel>, ParseError>(map_merge(m, Map::empty())));
            },
            Err(e) => {
                assert(tallies_merged(cs) == Err::<Map<Seq<u8>, AggModel>, ParseError>(e));
            },
        }
    } else {
        let rest = cs.skip(1);
        assert forall|i: int| 0 <= i < rest.len() - 1 implies aligned(#[trigger] rest[i]) by {
            assert(rest[i] == cs[i + 1]);
        }
        lemma_chunking_invariance(rest);
        assert(aligned(cs[0]));
        lemma_chunk_tally_append(cs[0], concat_all(rest));
        assert(concat_all(cs) == cs[0] + concat_all(rest));
        match (chunk_tally(cs[0]), tallies_merged(rest)) {
            (Ok(m), Ok(r)) => {
                assert(tallies_merged(cs) == Ok::<Map<Seq<u8>, AggModel>, ParseError>(map_merge(m, r)));
                assert(chunk_tally(concat_all(cs)) == Ok::<Map<Seq<u8>, AggModel>, ParseError>(map_merge(m, r)));
            },
            (Err(e), _) => {
                assert(chunk_tally(concat_all(cs)) == Err::<Map<Seq<u8>, AggModel>, ParseError>(e));
            },
            (_, Err(e)) => {
                assert(chunk_tally(concat_all(cs)) == Err::<Map<Seq<u8>, AggModel>, ParseError>(e));
            },
        }
    }
}

/// Two chunkings of the same byte stream — whatever their block sizes,
/// and whether or not the stream is an exact multiple of either — merge
/// to the same tally.
pub proof fn lemma_chunking_agnostic(cs1: Seq<Seq<u8>>, cs2: Seq<Seq<u8>>)
    requires
        concat_all(cs1) == concat_all(cs2),
        forall|i: int| 0 <= i < cs1.len() - 1 ==> aligned(#[trigger] cs1[i]),
        forall|i: int| 0 <= i < cs2.len() - 1 ==> aligned(#[trigger] cs2[i]),
    ensures
        tallies_merged(cs1) == tallies_merged(cs2),
{
    lemma_chunking_invariance(cs1);
    lemma_chunking_invariance(cs2);
}

/// The position of the first `b` in `data[from..to]`, if any.
fn find_byte(data: &Vec<u8>, from: usize, to: usize, b: u8) -> (r: Option<usize>)
    requires
        from <= to <= data.len(),
    ensures
        r matches Some(p) ==> from <= p < to && data@[p as int] == b
            && first_at(data@.subrange(from as int, to as int), b) == p - from,
        r is None ==> first_at(data@.subrange(from as int, to as int), b) == -1,
{
    let ghost s = data@.subrange(from as int, to as int);
    let mut j = from;
    while j < to
        invariant
            from <= j <= to <= data.len(),
            s == data@.subrange(from as int, to as int),
            forall|t: int| from <= t < j ==> data@[t] != b,
        decreases to - j,
    {
        if data[j] == b {
            proof {
                assert(s[j - from] == b);
                assert forall|t: int| 0 <= t < j - from implies s[t] != b by {
                    assert(s[t] == data@[from + t]);
                }
                lemma_first_at_exact(s, b, j - from);
            }
            return Some(j);
        }
        j = j + 1;
    }
    proof {
        lemma_first_at(s, b);
        if first_at(s, b) != -1 {
            assert(s[first_at(s, b)] == b);
            assert(s[first_at(s, b)] == data@[from + first_at(s, b)]);
        }
    }
    None
}

/// Copies `data[from..to]` into an owned buffer.
fn copy_range(data: &Vec<u8>, from: usize, to: usize) -> (r: Vec<u8>)
    requires
        from <= to <= data.len(),
    ensures
        r@ == data@.subrange(from as int, to as int),
{
    let mut r: Vec<u8> = Vec::new();
    let mut j = from;
    while j < to
        invariant
            from <= j <= to <= data.len(),
            r@ =~= data@.subrange(from as int, j as int),
        decreases to - j,
    {
        r.push(data[j]);
        j = j + 1;
        proof {
            assert(r@ =~= data@.subrange(from as int, j as int));
        }
    }
    r
}

/// Aggregates one chunk: scans its bytes once, splits each complete
/// record at its first delimiter, parses the value field, and folds the
/// observation into a fresh mapping. Ownership of the chunk transfers in.
///
/// Returns the chunk's aggregate mapping, or the first record's failure:
/// a missing delimiter or a malformed value aborts the whole chunk. Keys
/// are kept as raw bytes, so no text decoding happens here and every
/// structural failure is fatal; there is no skip-and-continue path.
pub fn tally_chunk(data: Vec<u8>) -> (r: Result<Mapping, ParseError>)
    ensures
        r matches Ok(m) ==> m.wf() && chunk_tally(data@) == Ok::<Map<Seq<u8>, AggModel>, ParseError>(m@),
        r matches Err(e) ==> chunk_tally(data@) == Err::<Map<Seq<u8>, AggModel>, ParseError>(e),
{
    let mut m = Mapping::new();
    let mut start: usize = 0;
    let mut i: usize = 0;
    let ghost mut processed: nat = 0;
    proof {
        assert(data@.skip(0) =~= data@);
    }
    while i < data.len()
        invariant
            start <= i <= data.len(),
            m.wf(),
            forall|t: int| start <= t < i ==> data@[t] != NL,
            chunk_tally(data@) == tally_records(m@, lines(data@.skip(start as int))),
            forall|k: Seq<u8>| count_of(m@, k) <= processed,
            processed <= start,
        decreases data.len() - i,
    {
        if data[i] == NL {
            let ghost sfx = data@.skip(start as int);
            let ghost rec = data@.subrange(start as int, i as int);
            proof {
                assert(sfx[i - start] == NL);
                assert forall|t: int| 0 <= t < i - start implies sfx[t] != NL by {
                    assert(sfx[t] == data@[start + t]);
                }
                lemma_lines_unfold(sfx, i - start);
                assert(sfx.take(i - start) =~= rec);
                assert(sfx.skip(i - start + 1) =~= data@.skip(i + 1 as int));
                assert(lines(sfx) == seq![rec] + lines(data@.skip(i + 1 as int)));
                assert((seq![rec] + lines(data@.skip(i + 1 as int)))[0] == rec);
                assert((seq![rec] + lines(data@.skip(i + 1 as int))).skip(1)
                    =~= lines(data@.skip(i + 1 as int)));
            }
            match find_byte(&data, start, i, SEMI) {
                None => {
                    proof {
                        assert(record_parse(rec) == Err::<(Seq<u8>, int), ParseError>(ParseError::MissingDelimiter));
                    }
                    return Err(ParseError::MissingDelimiter);
                },
                Some(p) => {
                    let ghost d = p - start as int;
                    proof {
                        assert(first_at(rec, SEMI) == d);
                        assert(rec.skip(d + 1) =~= data@.subrange(p + 1 as int, i as int));
                        assert(rec.take(d) =~= data@.subrange(start as int, p as int));
                    }
                    match parse_value(&data, p + 1, i) {
                        None => {
                            proof {
                                assert(record_parse(rec) == Err::<(Seq<u8>, int), ParseError>(ParseError::BadValue));
                            }
                            return Err(ParseError::BadValue);
                        },
                        Some(v) => {
                            proof {
                                assert(record_parse(rec) == Ok::<(Seq<u8>, int), ParseError>((rec.take(d), v as int)));
                            }
                            let key = copy_range(&data, start, p);
                            let ghost m_old = m@;
                            m.observe(key, v);
                            proof {
                                processed = processed + 1;
                                assert(m@ == map_step(m_old, rec.take(d), v as int));
                                assert(tally_records(m_old, lines(sfx))
                                    == tally_records(m@, lines(data@.skip(i + 1 as int))));
                                assert forall|k: Seq<u8>| count_of(m@, k) <= processed by {
                                    assert(count_of(m_old, k) <= processed - 1);
                                    if k != rec.take(d) {
                                        assert(count_of(m@, k) == count_of(m_old, k));
                                    }
                                }
                            }
                        },
                    }
                },
            }
            start = i + 1;
        }
        i = i + 1;
    }
    proof {
        let sfx = data@.skip(start as int);
        assert forall|t: int| 0 <= t < sfx.len() implies sfx[t] != NL by {
            assert(sfx[t] == data@[start + t]);
        }
        lemma_lines_none(sfx);
    }
    Ok(m)
}

} // verus!
