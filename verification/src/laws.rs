//! The laws of the packer: losslessness, the chunk-size bound, deterministic
//! splitting of oversized frames, and determinism of the whole run.

use vstd::prelude::*;

use vstd::arithmetic::div_mod::lemma_basic_div;
use vstd::arithmetic::div_mod::lemma_div_plus_one;
use vstd::arithmetic::div_mod::lemma_fundamental_div_mod;
use vstd::arithmetic::div_mod::lemma_mod_division_less_than_divisor;

use crate::packer::pack_frame_from;
use crate::packer::pack_frames_from;
use crate::packer::pack_spec;

verus! {

/// Every chunk of `chunks` is non-empty and holds at most `limit` tokens.
pub open spec fn chunks_bounded(chunks: Seq<Seq<Seq<char>>>, limit: int) -> bool {
    forall|i: int| 0 <= i < chunks.len() ==> 1 <= #[trigger] chunks[i].len() <= limit
}

proof fn lemma_pack_frame_from_lossless(
    acc: Seq<Seq<Seq<char>>>,
    cur: Seq<Seq<char>>,
    toks: Seq<Seq<char>>,
    limit: int,
)
    requires
        limit >= 1,
    ensures
        ({
            let r = pack_frame_from(acc, cur, toks, limit);
            r.0.flatten() + r.1 == acc.flatten() + cur + toks
        }),
    decreases toks.len(),
{
    let r = pack_frame_from(acc, cur, toks, limit);
    if toks.len() == 0 {
        assert(acc.flatten() + cur + toks =~= acc.flatten() + cur);
    } else {
        let flush = cur.len() + toks.len() > limit && cur.len() > 0;
        let facc = if flush {
            acc.push(cur)
        } else {
            acc
        };
        let fcur = if flush {
            Seq::<Seq<char>>::empty()
        } else {
            cur
        };
        if flush {
            acc.lemma_flatten_push(cur);
            assert(facc.flatten() + fcur =~= acc.flatten() + cur);
        }
        if toks.len() > limit {
            let head = toks.take(limit);
            let tail = toks.skip(limit);
            facc.lemma_flatten_push(head);
            lemma_pack_frame_from_lossless(
                facc.push(head),
                Seq::<Seq<char>>::empty(),
                tail,
                limit,
            );
            assert(r.0.flatten() + r.1 == facc.push(head).flatten() + Seq::<Seq<char>>::empty()
                + tail);
            assert(facc.push(head).flatten() + Seq::<Seq<char>>::empty() + tail =~= facc.flatten()
                + head + tail);
            assert(head + tail =~= toks);
            assert(facc.flatten() + head + tail =~= (facc.flatten() + fcur) + toks);
            assert((acc.flatten() + cur) + toks =~= acc.flatten() + cur + toks);
        } else {
            assert(r.0.flatten() + r.1 == facc.flatten() + (fcur + toks));
            assert(facc.flatten() + (fcur + toks) =~= (facc.flatten() + fcur) + toks);
            assert((acc.flatten() + cur) + toks =~= acc.flatten() + cur + toks);
        }
    }
}

proof fn lemma_pack_frames_from_lossless(
    acc: Seq<Seq<Seq<char>>>,
    cur: Seq<Seq<char>>,
    frames: Seq<Seq<Seq<char>>>,
    limit: int,
)
    requires
        limit >= 1,
    ensures
        ({
            let r = pack_frames_from(acc, cur, frames, limit);
            r.0.flatten() + r.1 == acc.flatten() + cur + frames.flatten()
        }),
    decreases frames.len(),
{
    let r = pack_frames_from(acc, cur, frames, limit);
    if frames.len() == 0 {
        assert(frames.flatten() =~= Seq::<Seq<char>>::empty());
        assert(acc.flatten() + cur + frames.flatten() =~= acc.flatten() + cur);
    } else {
        let m = pack_frame_from(acc, cur, frames[0], limit);
        lemma_pack_frame_from_lossless(acc, cur, frames[0], limit);
        lemma_pack_frames_from_lossless(m.0, m.1, frames.skip(1), limit);
        assert(frames.skip(1) =~= frames.drop_first());
        assert(frames.flatten() == frames[0] + frames.drop_first().flatten());
        assert(m.0.flatten() + m.1 + frames.skip(1).flatten() =~= (acc.flatten() + cur
            + frames[0]) + frames.skip(1).flatten());
        assert((acc.flatten() + cur + frames[0]) + frames.skip(1).flatten() =~= acc.flatten() + cur
            + frames.flatten());
    }
}

/// Losslessness: for any frames and any valid bound, concatenating all
/// tokens of all emitted chunks, in order, yields exactly the concatenation
/// of all input tokens, in order — nothing duplicated, dropped, or
/// reordered.
pub proof fn lemma_pack_lossless(frames: Seq<Seq<Seq<char>>>, limit: int)
    requires
        limit >= 1,
    ensures
        pack_spec(frames, limit).flatten() == frames.flatten(),
{
    let r = pack_frames_from(
        Seq::<Seq<Seq<char>>>::empty(),
        Seq::<Seq<char>>::empty(),
        frames,
        limit,
    );
    lemma_pack_frames_from_lossless(
        Seq::<Seq<Seq<char>>>::empty(),
        Seq::<Seq<char>>::empty(),
        frames,
        limit,
    );
    assert(Seq::<Seq<Seq<char>>>::empty().flatten() =~= Seq::<Seq<char>>::empty());
    assert(Seq::<Seq<Seq<char>>>::empty().flatten() + Seq::<Seq<char>>::empty() + frames.flatten()
        =~= frames.flatten());
    if r.1.len() > 0 {
        r.0.lemma_flatten_push(r.1);
    } else {
        assert(r.1 =~= Seq::<Seq<char>>::empty());
        assert(r.0.flatten() + r.1 =~= r.0.flatten());
    }
}

proof fn lemma_pack_frame_from_bounded(
    acc: Seq<Seq<Seq<char>>>,
    cur: Seq<Seq<char>>,
    toks: Seq<Seq<char>>,
    limit: int,
)
    requires
        limit >= 1,
        chunks_bounded(acc, limit),
        cur.len() <= limit,
    ensures
        ({
            let r = pack_frame_from(acc, cur, toks, limit);
            chunks_bounded(r.0, limit) && r.1.len() <= limit
        }),
    decreases toks.len(),
{
    if toks.len() > 0 {
        let flush = cur.len() + toks.len() > limit && cur.len() > 0;
        let facc = if flush {
            acc.push(cur)
        } else {
            acc
        };
        if flush {
            assert forall|i: int| 0 <= i < facc.len() implies 1 <= #[trigger] facc[i].len()
                <= limit by {
                if i < acc.len() {
                    assert(facc[i] == acc[i]);
                } else {
                    assert(facc[i] == cur);
                }
            }
        }
        if toks.len() > limit {
            let head = toks.take(limit);
            let next = facc.push(head);
            assert(head.len() == limit);
            assert forall|i: int| 0 <= i < next.len() implies 1 <= #[trigger] next[i].len()
                <= limit by {
                if i < facc.len() {
                    assert(next[i] == facc[i]);
                } else {
                    assert(next[i] == head);
                }
            }
            lemma_pack_frame_from_bounded(next, Seq::<Seq<char>>::empty(), toks.skip(limit), limit);
        }
    }
}

proof fn lemma_pack_frames_from_bounded(
    acc: Seq<Seq<Seq<char>>>,
    cur: Seq<Seq<char>>,
    frames: Seq<Seq<Seq<char>>>,
    limit: int,
)
    requires
        limit >= 1,
        chunks_bounded(acc, limit),
        cur.len() <= limit,
    ensures
        ({
            let r = pack_frames_from(acc, cur, frames, limit);
            chunks_bounded(r.0, limit) && r.1.len() <= limit
        }),
    decreases frames.len(),
{
    if frames.len() > 0 {
        let m = pack_frame_from(acc, cur, frames[0], limit);
        lemma_pack_frame_from_bounded(acc, cur, frames[0], limit);
        lemma_pack_frames_from_bounded(m.0, m.1, frames.skip(1), limit);
    }
}

/// Bound invariant: for any frames and any valid bound, every emitted chunk
/// holds at least one and at most `limit` tokens.
pub proof fn lemma_pack_bounded(frames: Seq<Seq<Seq<char>>>, limit: int)
    requires
        limit >= 1,
    ensures
        chunks_bounded(pack_spec(frames, limit), limit),
{
    let r = pack_frames_from(
        Seq::<Seq<Seq<char>>>::empty(),
        Seq::<Seq<char>>::empty(),
        frames,
        limit,
    );
    lemma_pack_frames_from_bounded(
        Seq::<Seq<Seq<char>>>::empty(),
        Seq::<Seq<char>>::empty(),
        frames,
        limit,
    );
    let out = pack_spec(frames, limit);
    if r.1.len() > 0 {
        assert forall|i: int| 0 <= i < out.len() implies 1 <= #[trigger] out[i].len() <= limit by {
            if i < r.0.len() {
                assert(out[i] == r.0[i]);
            } else {
                assert(out[i] == r.1);
            }
        }
    }
}

proof fn lemma_pack_frame_from_empty_cur(acc: Seq<Seq<Seq<char>>>, toks: Seq<Seq<char>>, limit: int)
    requires
        limit >= 1,
        toks.len() >= 1,
    ensures
        ({
            let r = pack_frame_from(acc, Seq::<Seq<char>>::empty(), toks, limit);
            let q = (toks.len() - 1) as int / limit;
            &&& r.0.len() == acc.len() + q
            &&& forall|i: int| 0 <= i < acc.len() ==> r.0[i] == acc[i]
            &&& forall|i: int| acc.len() <= i < r.0.len() ==> #[trigger] r.0[i].len() == limit
            &&& r.1.len() == toks.len() - q * limit
        }),
    decreases toks.len(),
{
    let r = pack_frame_from(acc, Seq::<Seq<char>>::empty(), toks, limit);
    let q = (toks.len() - 1) as int / limit;
    if toks.len() <= limit {
        lemma_basic_div(toks.len() - 1, limit);
        assert(q == 0);
        assert(r.1 == Seq::<Seq<char>>::empty() + toks);
        assert((Seq::<Seq<char>>::empty() + toks).len() == toks.len());
    } else {
        let head = toks.take(limit);
        let tail = toks.skip(limit);
        let next = acc.push(head);
        lemma_pack_frame_from_empty_cur(next, tail, limit);
        let q2 = (tail.len() - 1) as int / limit;
        assert(q == q2 + 1) by {
            lemma_div_plus_one(tail.len() - 1, limit);
            assert(toks.len() - 1 == limit + (tail.len() - 1));
        }
        assert(r.0.len() == next.len() + q2);
        assert(toks.len() - q * limit == tail.len() - q2 * limit) by {
            assert(q * limit == q2 * limit + limit) by (nonlinear_arith)
                requires
                    q == q2 + 1,
            ;
        }
        assert forall|i: int| 0 <= i < acc.len() implies r.0[i] == acc[i] by {
            assert(r.0[i] == next[i]);
            assert(next[i] == acc[i]);
        }
        assert forall|i: int| acc.len() <= i < r.0.len() implies #[trigger] r.0[i].len()
            == limit by {
            if i == acc.len() {
                assert(r.0[i] == next[i]);
                assert(next[i] == head);
            }
        }
    }
}

/// Oversized-file splitting: a single frame of `k > limit` tokens, packed
/// from an empty state, yields exactly `ceil(k / limit)` chunks; every chunk
/// but the last holds exactly `limit` tokens, and the last holds the
/// remainder `k - (ceil(k / limit) - 1) * limit`.
pub proof fn lemma_oversized_split(toks: Seq<Seq<char>>, limit: int)
    requires
        limit >= 1,
        toks.len() > limit,
    ensures
        ({
            let chunks = pack_spec(seq![toks], limit);
            &&& chunks.len() == (toks.len() + limit - 1) / limit
            &&& forall|i: int| 0 <= i < chunks.len() - 1 ==> #[trigger] chunks[i].len() == limit
            &&& chunks[chunks.len() - 1].len() == toks.len() - (chunks.len() - 1) * limit
        }),
{
    let frames = seq![toks];
    let empty_acc = Seq::<Seq<Seq<char>>>::empty();
    let empty_cur = Seq::<Seq<char>>::empty();
    let m = pack_frame_from(empty_acc, empty_cur, frames[0], limit);
    assert(frames.skip(1) =~= Seq::<Seq<Seq<char>>>::empty());
    let tail_r = pack_frames_from(m.0, m.1, frames.skip(1), limit);
    assert(tail_r.0 == m.0 && tail_r.1 == m.1);
    let p = pack_frames_from(empty_acc, empty_cur, frames, limit);
    assert(p.0 == m.0 && p.1 == m.1);
    lemma_pack_frame_from_empty_cur(empty_acc, toks, limit);
    let q = (toks.len() - 1) as int / limit;
    assert(m.1.len() >= 1) by {
        lemma_fundamental_div_mod(toks.len() - 1, limit);
        lemma_mod_division_less_than_divisor(toks.len() - 1, limit);
        assert(q * limit == limit * q) by (nonlinear_arith);
    }
    let chunks = pack_spec(frames, limit);
    assert(chunks == m.0.push(m.1));
    assert(chunks.len() == q + 1);
    assert((toks.len() + limit - 1) / limit == q + 1) by {
        lemma_div_plus_one(toks.len() - 1, limit);
    }
    assert forall|i: int| 0 <= i < chunks.len() - 1 implies #[trigger] chunks[i].len() == limit by {
        assert(chunks[i] == m.0[i]);
    }
    assert(chunks[chunks.len() - 1] == m.1);
}

/// Determinism: packing the same ordered input twice with the same bound
/// yields identical chunk streams, boundaries included. The chunk stream is
/// a pure function of the frames and the bound alone.
pub proof fn lemma_pack_deterministic(
    frames1: Seq<Seq<Seq<char>>>,
    frames2: Seq<Seq<Seq<char>>>,
    limit1: int,
    limit2: int,
)
    requires
        frames1 == frames2,
        limit1 == limit2,
    ensures
        pack_spec(frames1, limit1) == pack_spec(frames2, limit2),
{
}

} // verus!
