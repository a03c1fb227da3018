use vstd::prelude::*;
use crate::records::{NL, last_at, lemma_last_at, aligned, concat_all, lemma_concat_all_push};

verus! {

/// No newline lies in `data[a..b]`.
pub open spec fn no_nl_in(data: Seq<u8>, a: int, b: int) -> bool {
    forall|t: int| a <= t < b ==> data[t] != NL
}

/// The splitter could not realign a full block: no record terminator lay
/// anywhere in it, so the configured margin is too small for some record.
#[derive(Clone, Copy, Debug, PartialEq, Eq, Structural)]
pub struct AlignError;

/// Realigns one block of the stream. When more of the stream remains,
/// everything after the block's last newline is carried forward and the
/// aligned front is the chunk to emit; the stream's final block is
/// emitted whole. Fails exactly when realignment is owed and the block
/// holds no newline at all.
pub fn realign_block(block: Vec<u8>, more_remains: bool) -> (r: Result<(Vec<u8>, Vec<u8>), AlignError>)
    ensures
        r matches Ok((chunk, carry)) ==> {
            &&& chunk@ + carry@ == block@
            &&& (more_remains ==> aligned(chunk@) && chunk@.len() > 0)
            &&& (more_remains ==> forall|t: int| 0 <= t < carry@.len() ==> carry@[t] != NL)
            &&& (!more_remains ==> chunk@ == block@ && carry@.len() == 0)
        },
        r is Err <==> more_remains && last_at(block@, NL) == -1,
{
    proof {
        lemma_last_at(block@, NL);
    }
    if !more_remains {
        let carry: Vec<u8> = Vec::new();
        proof {
            assert(block@ + carry@ =~= block@);
        }
        return Ok((block, carry));
    }
    let mut j = block.len();
    while j > 0
        invariant
            more_remains,
            j <= block.len(),
            forall|t: int| j <= t < block@.len() ==> block@[t] != NL,
        decreases j,
    {
        if block[j - 1] == NL {
            let q = j - 1;
            let mut carry: Vec<u8> = Vec::new();
            let mut t = q + 1;
            while t < block.len()
                invariant
                    q + 1 <= t <= block@.len(),
                    carry@ =~= block@.subrange(q + 1 as int, t as int),
                decreases block.len() - t,
            {
                carry.push(block[t]);
                t = t + 1;
                proof {
                    assert(carry@ =~= block@.subrange(q + 1 as int, t as int));
                }
            }
            let ghost bv = block@;
            let mut chunk = block;
            chunk.truncate(q + 1);
            proof {
                lemma_last_at(bv, NL);
                assert(chunk@ =~= bv.subrange(0, q + 1 as int));
                assert(chunk@ + carry@ =~= bv);
                assert(chunk@[q as int] == bv[q as int]);
                assert(aligned(chunk@));
                assert forall|t2: int| 0 <= t2 < carry@.len() implies carry@[t2] != NL by {
                    assert(carry@[t2] == bv[q + 1 + t2]);
                }
                assert(last_at(bv, NL) != -1) by {
                    if last_at(bv, NL) == -1 {
                        assert(bv[q as int] != NL);
                    }
                }
            }
            return Ok((chunk, carry));
        }
        j = j - 1;
    }
    proof {
        lemma_last_at(block@, NL);
        assert(last_at(block@, NL) == -1) by {
            if last_at(block@, NL) != -1 {
                assert(block@[last_at(block@, NL)] == NL);
            }
        }
    }
    Err(AlignError)
}

/// Splits a byte stream into record-aligned chunks: each block of at
/// most `block_size + margin` bytes is realigned so that every chunk but
/// possibly the last ends exactly after a newline, and concatenating the
/// chunks in emission order reproduces the stream exactly. Fails only
/// when some full block holds no newline, that is, when a record
/// outgrows the margin.
pub fn split_stream(data: &Vec<u8>, block_size: usize, margin: usize) -> (r: Result<
    Vec<Vec<u8>>,
    AlignError,
>)
    requires
        1 <= block_size,
        block_size + margin <= usize::MAX,
    ensures
        r matches Ok(chunks) ==> concat_all(chunks@.map_values(|c: Vec<u8>| c@)) == data@,
        r matches Ok(chunks) ==> forall|i: int|
            0 <= i < chunks@.len() - 1 ==> aligned(#[trigger] chunks@[i]@),
        r matches Ok(chunks) ==> forall|i: int|
            0 <= i < chunks@.len() ==> 0 < (#[trigger] chunks@[i]@).len() <= block_size + margin,
        r is Err ==> exists|s: int|
            0 <= s && s + block_size + margin < data@.len() && #[trigger] no_nl_in(
                data@,
                s,
                s + block_size + margin,
            ),
{
    let cap = block_size + margin;
    let mut chunks: Vec<Vec<u8>> = Vec::new();
    let mut carry: Vec<u8> = Vec::new();
    let mut pos: usize = 0;
    proof {
        assert(concat_all(chunks@.map_values(|c: Vec<u8>| c@)) + carry@ =~= data@.take(0));
    }
    while pos < data.len()
        invariant
            cap == block_size + margin,
            1 <= cap,
            pos <= data.len(),
            carry@.len() < cap,
            carry@.len() <= pos,
            carry@ == data@.subrange(pos - carry@.len(), pos as int),
            concat_all(chunks@.map_values(|c: Vec<u8>| c@)) + carry@ == data@.take(pos as int),
            forall|i: int| 0 <= i < chunks@.len() - 1 ==> aligned(#[trigger] chunks@[i]@),
            forall|i: int|
                0 <= i < chunks@.len() ==> 0 < (#[trigger] chunks@[i]@).len() <= cap,
            pos < data@.len() && chunks@.len() > 0 ==> aligned(
                chunks@[chunks@.len() - 1]@,
            ),
            pos == data@.len() ==> carry@.len() == 0,
        decreases data.len() - pos,
    {
        let ghost cviews = chunks@.map_values(|c: Vec<u8>| c@);
        let ghost oldcarry = carry@;
        let ghost oldpos = pos as int;
        let space = cap - carry.len();
        let rem = data.len() - pos;
        let take = if space < rem {
            space
        } else {
            rem
        };
        let mut block = carry;
        let mut t: usize = 0;
        while t < take
            invariant
                t <= take,
                pos + take <= data.len(),
                oldpos == pos,
                block@ =~= oldcarry + data@.subrange(pos as int, pos + t),
            decreases take - t,
        {
            block.push(data[pos + t]);
            t = t + 1;
            proof {
                assert(block@ =~= oldcarry + data@.subrange(pos as int, pos + t));
            }
        }
        pos = pos + take;
        let more = pos < data.len();
        let ghost bv = block@;
        let ghost bstart = pos - bv.len();
        proof {
            assert(bv =~= data@.subrange(bstart, pos as int));
        }
        match realign_block(block, more) {
            Err(e) => {
                proof {
                    lemma_last_at(bv, NL);
                    assert(take == space) by {
                        if take != space {
                            assert(pos == data@.len());
                        }
                    }
                    assert(bv.len() == cap);
                    assert forall|t2: int| bstart <= t2 < bstart + cap implies data@[t2] != NL by {
                        assert(bv[t2 - bstart] != NL);
                    }
                    assert(bstart + cap == bstart + block_size + margin);
                    assert(0 <= bstart && bstart + block_size + margin < data@.len() && no_nl_in(
                        data@,
                        bstart,
                        bstart + block_size + margin,
                    ));
                }
                return Err(e);
            },
            Ok((chunk, newcarry)) => {
                let ghost cv = chunk@;
                let ghost ncv = newcarry@;
                chunks.push(chunk);
                carry = newcarry;
                proof {
                    assert(chunks@.map_values(|c: Vec<u8>| c@) =~= cviews.push(cv));
                    lemma_concat_all_push(cviews, cv);
                    assert(cv + ncv == bv);
                    assert(cv.len() + ncv.len() == bv.len());
                    assert forall|t2: int| 0 <= t2 < ncv.len() implies ncv[t2] == data@[pos
                        - ncv.len() + t2] by {
                        assert(ncv[t2] == bv[cv.len() + t2]);
                    }
                    assert(ncv =~= data@.subrange(pos - ncv.len(), pos as int));
                    assert(bv =~= oldcarry + data@.subrange(oldpos, pos as int));
                    assert((concat_all(cviews) + cv) + ncv =~= concat_all(cviews) + bv);
                    assert(concat_all(cviews) + bv =~= data@.take(oldpos) + data@.subrange(
                        oldpos,
                        pos as int,
                    ));
                    assert(data@.take(oldpos) + data@.subrange(oldpos, pos as int) =~= data@.take(
                        pos as int,
                    ));
                    assert(concat_all(cviews.push(cv)) + ncv =~= data@.take(pos as int));
                    assert forall|i: int| 0 <= i < chunks@.len() - 1 implies aligned(
                        #[trigger] chunks@[i]@,
                    ) by {
                        if i < chunks@.len() - 2 {
                            assert(chunks@[i]@ == cviews[i]);
                        } else {
                            assert(oldpos < data@.len());
                        }
                    }
                    if more {
                        assert(ncv.len() < bv.len());
                    } else {
                        assert(cv.len() >= take);
                    }
                    assert(bv.len() <= cap);
                    assert forall|i: int| 0 <= i < chunks@.len() implies 0 < (
                    #[trigger] chunks@[i]@).len() <= cap by {
                        if i < chunks@.len() - 1 {
                            assert(chunks@[i]@ == cviews[i]);
                        } else {
                            assert(chunks@[i]@ == cv);
                        }
                    }
                }
            },
        }
    }
    proof {
        assert(data@.take(data@.len() as int) =~= data@);
        assert(concat_all(chunks@.map_values(|c: Vec<u8>| c@)) + carry@
            =~= concat_all(chunks@.map_values(|c: Vec<u8>| c@)));
    }
    Ok(chunks)
}

} // verus!
