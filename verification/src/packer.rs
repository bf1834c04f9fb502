//! Packing per-file token sequences into ordered, size-bounded chunks.
//!
//! The packer consumes one frame's tokens at a time, in file order, and
//! appends completed chunks to an output stream. A chunk never holds more
//! than `token_limit` tokens; a frame whose remaining run alone exceeds the
//! limit is split at forced boundaries of exactly `token_limit` tokens.
//! Tokens are never duplicated, dropped, or reordered.

use vstd::prelude::*;

verus! {

/// The token budget used when the caller does not configure one.
pub const DEFAULT_TOKEN_LIMIT: usize = 4096;

/// The one error the core can raise: a `token_limit` of zero was supplied.
/// No non-empty chunk could ever satisfy a bound of zero.
#[derive(Clone, Copy, Debug, PartialEq, Eq, Structural)]
pub enum PackError {
    InvalidTokenLimit,
}

/// One step of the packer per frame, as a function of the chunks emitted so
/// far (`acc`), the chunk being filled (`cur`), and the frame's remaining
/// tokens (`toks`). While tokens remain: if they no longer fit beside `cur`,
/// a non-empty `cur` is emitted; if the remaining run alone exceeds the
/// limit, its first `limit` tokens are emitted as a forced chunk; otherwise
/// the whole run joins `cur`. Returns the emitted chunks and the still-open
/// chunk.
pub open spec fn pack_frame_from(
    acc: Seq<Seq<Seq<char>>>,
    cur: Seq<Seq<char>>,
    toks: Seq<Seq<char>>,
    limit: int,
) -> (Seq<Seq<Seq<char>>>, Seq<Seq<char>>)
    decreases toks.len(),
{
    if toks.len() == 0 || limit <= 0 {
        (acc, cur)
    } else {
        let flushed = if cur.len() + toks.len() > limit && cur.len() > 0 {
            (acc.push(cur), Seq::<Seq<char>>::empty())
        } else {
            (acc, cur)
        };
        if toks.len() > limit {
            pack_frame_from(
                flushed.0.push(toks.take(limit)),
                Seq::<Seq<char>>::empty(),
                toks.skip(limit),
                limit,
            )
        } else {
            (flushed.0, flushed.1 + toks)
        }
    }
}

/// The packer folded over a whole run: each frame's tokens in order, the
/// open chunk carried from one frame to the next.
pub open spec fn pack_frames_from(
    acc: Seq<Seq<Seq<char>>>,
    cur: Seq<Seq<char>>,
    frames: Seq<Seq<Seq<char>>>,
    limit: int,
) -> (Seq<Seq<Seq<char>>>, Seq<Seq<char>>)
    decreases frames.len(),
{
    if frames.len() == 0 {
        (acc, cur)
    } else {
        let r = pack_frame_from(acc, cur, frames[0], limit);
        pack_frames_from(r.0, r.1, frames.skip(1), limit)
    }
}

/// The chunk stream for a whole run: all frames packed from an empty state,
/// with a final non-empty open chunk emitted at stream end.
pub open spec fn pack_spec(frames: Seq<Seq<Seq<char>>>, limit: int) -> Seq<Seq<Seq<char>>> {
    let r = pack_frames_from(
        Seq::<Seq<Seq<char>>>::empty(),
        Seq::<Seq<char>>::empty(),
        frames,
        limit,
    );
    if r.1.len() > 0 {
        r.0.push(r.1)
    } else {
        r.0
    }
}

/// The packing state carried across one whole run: the chunk being filled,
/// its token count, and the configured bound. Fresh per run; never shared.
pub struct ChunkPacker {
    token_limit: usize,
    current_chunk: Vec<String>,
    current_count: usize,
}

impl ChunkPacker {
    /// The packer's invariant: a valid bound, an accurate count, and an open
    /// chunk that never exceeds the bound.
    pub closed spec fn wf(self) -> bool {
        &&& self.token_limit >= 1
        &&& self.current_count == self.current_chunk.len()
        &&& self.current_chunk.len() <= self.token_limit
    }

    /// The configured token budget.
    pub closed spec fn spec_token_limit(self) -> int {
        self.token_limit as int
    }

    /// The tokens of the still-open chunk, in order.
    pub closed spec fn pending(self) -> Seq<Seq<char>> {
        self.current_chunk.deep_view()
    }

    /// Creates a packer with the given bound, or reports the one
    /// configuration error: a bound of zero is rejected, any other bound is
    /// accepted, and a fresh packer starts with an empty open chunk.
    pub fn new(token_limit: usize) -> (r: Result<ChunkPacker, PackError>)
        ensures
            token_limit >= 1 <==> r is Ok,
            r matches Ok(p) ==> p.wf() && p.spec_token_limit() == token_limit && p.pending()
                == Seq::<Seq<char>>::empty(),
            r matches Err(e) ==> e == PackError::InvalidTokenLimit,
    {
        if token_limit == 0 {
            Err(PackError::InvalidTokenLimit)
        } else {
            let p = ChunkPacker { token_limit, current_chunk: Vec::new(), current_count: 0 };
            proof {
                assert(p.pending() =~= Seq::<Seq<char>>::empty());
            }
            Ok(p)
        }
    }

    /// Empties the packer so that it can start an independent run, keeping
    /// the configured bound.
    pub fn reset(&mut self)
        requires
            old(self).wf(),
        ensures
            final(self).wf(),
            final(self).spec_token_limit() == old(self).spec_token_limit(),
            final(self).pending() == Seq::<Seq<char>>::empty(),
    {
        self.current_chunk = Vec::new();
        self.current_count = 0;
        proof {
            assert(self.pending() =~= Seq::<Seq<char>>::empty());
        }
    }

    /// Feeds one frame's tokens to the packer, appending every chunk that
    /// completes to `out`. The new output and the new open chunk are exactly
    /// what [`pack_frame_from`] yields from the old state.
    pub fn push_frame(&mut self, tokens: &Vec<String>, out: &mut Vec<Vec<String>>)
        requires
            old(self).wf(),
        ensures
            final(self).wf(),
            final(self).spec_token_limit() == old(self).spec_token_limit(),
            ({
                let r = pack_frame_from(
                    old(out).deep_view(),
                    old(self).pending(),
                    tokens.deep_view(),
                    old(self).spec_token_limit(),
                );
                final(out).deep_view() == r.0 && final(self).pending() == r.1
            }),
    {
        let limit = self.token_limit;
        let n = tokens.len();
        let ghost toks0 = tokens.deep_view();
        let ghost target = pack_frame_from(
            out.deep_view(),
            self.pending(),
            toks0,
            limit as int,
        );
        let mut pos: usize = 0;
        proof {
            assert(toks0.skip(0) =~= toks0);
        }
        while pos < n
            invariant
                pos <= n,
                n == tokens@.len(),
                toks0 == tokens.deep_view(),
                self.wf(),
                self.token_limit == limit,
                target == pack_frame_from(
                    out.deep_view(),
                    self.pending(),
                    toks0.skip(pos as int),
                    limit as int,
                ),
            decreases n - pos,
        {
            let remaining = n - pos;
            let ghost rest = toks0.skip(pos as int);
            let ghost acc_it = out.deep_view();
            let ghost cur_it = self.pending();
            assert(rest.len() == remaining);
            // Flush a non-empty open chunk that the remaining run would overflow.
            if remaining > limit - self.current_count {
                if self.current_chunk.len() > 0 {
                    let mut done: Vec<String> = Vec::new();
                    core::mem::swap(&mut done, &mut self.current_chunk);
                    out.push(done);
                    proof {
                        assert(done.deep_view() =~= cur_it);
                        assert(out.deep_view() =~= acc_it.push(cur_it));
                        assert(self.pending() =~= Seq::<Seq<char>>::empty());
                    }
                }
                self.current_count = 0;
            }
            let ghost acc_f = out.deep_view();
            let ghost cur_f = self.pending();
            if remaining > limit {
                // Forced boundary: emit the first `limit` remaining tokens alone.
                let mut forced: Vec<String> = Vec::new();
                let mut j: usize = 0;
                while j < limit
                    invariant
                        j <= limit,
                        pos + limit <= n,
                        n == tokens@.len(),
                        toks0 == tokens.deep_view(),
                        forced.deep_view() =~= toks0.subrange(pos as int, pos + j),
                    decreases limit - j,
                {
                    let ghost before = forced.deep_view();
                    forced.push(tokens[pos + j].clone());
                    proof {
                        assert(forced.deep_view() =~= before.push(toks0[pos + j]));
                        assert(before.push(toks0[pos + j]) =~= toks0.subrange(
                            pos as int,
                            pos + j + 1,
                        ));
                    }
                    j = j + 1;
                }
                out.push(forced);
                proof {
                    assert(forced.deep_view() =~= rest.take(limit as int));
                    assert(out.deep_view() =~= acc_f.push(rest.take(limit as int)));
                    assert(rest.skip(limit as int) =~= toks0.skip(pos + limit));
                    assert(cur_f =~= Seq::<Seq<char>>::empty());
                    assert(self.pending() == cur_f);
                    assert(pack_frame_from(acc_it, cur_it, rest, limit as int)
                        == pack_frame_from(
                        acc_f.push(rest.take(limit as int)),
                        Seq::<Seq<char>>::empty(),
                        rest.skip(limit as int),
                        limit as int,
                    ));
                }
                pos = pos + limit;
            } else {
                // The whole remaining run fits beside the open chunk.
                let mut j: usize = 0;
                while j < remaining
                    invariant
                        j <= remaining,
                        remaining == n - pos,
                        pos + remaining <= n,
                        n == tokens@.len(),
                        toks0 == tokens.deep_view(),
                        self.current_chunk.deep_view() =~= cur_f + toks0.subrange(
                            pos as int,
                            pos + j,
                        ),
                        self.token_limit == limit,
                        self.current_chunk.len() == cur_f.len() + j,
                    decreases remaining - j,
                {
                    let ghost before = self.current_chunk.deep_view();
                    self.current_chunk.push(tokens[pos + j].clone());
                    proof {
                        assert(self.current_chunk.deep_view() =~= before.push(toks0[pos + j]));
                        assert((cur_f + toks0.subrange(pos as int, pos + j)).push(toks0[pos + j])
                            =~= cur_f + toks0.subrange(pos as int, pos + j + 1));
                    }
                    j = j + 1;
                }
                self.current_count = self.current_chunk.len();
                proof {
                    assert(toks0.subrange(pos as int, pos + remaining) =~= rest);
                    assert(self.pending() =~= cur_f + rest);
                    assert(toks0.skip(pos + remaining) =~= Seq::<Seq<char>>::empty());
                    assert(pack_frame_from(acc_it, cur_it, rest, limit as int) == (
                        acc_f,
                        cur_f + rest,
                    ));
                }
                pos = pos + remaining;
            }
        }
        proof {
            assert(toks0.skip(n as int) =~= Seq::<Seq<char>>::empty());
        }
    }

    /// Ends the run: emits the open chunk to `out` if it is non-empty, and
    /// leaves the packer empty.
    pub fn finish(&mut self, out: &mut Vec<Vec<String>>)
        requires
            old(self).wf(),
        ensures
            final(self).wf(),
            final(self).spec_token_limit() == old(self).spec_token_limit(),
            final(self).pending() == Seq::<Seq<char>>::empty(),
            final(out).deep_view() == (if old(self).pending().len() > 0 {
                old(out).deep_view().push(old(self).pending())
            } else {
                old(out).deep_view()
            }),
    {
        let ghost acc0 = out.deep_view();
        let ghost cur0 = self.pending();
        if self.current_chunk.len() > 0 {
            let mut done: Vec<String> = Vec::new();
            core::mem::swap(&mut done, &mut self.current_chunk);
            out.push(done);
            self.current_count = 0;
            proof {
                assert(done.deep_view() =~= cur0);
                assert(out.deep_view() =~= acc0.push(cur0));
                assert(self.pending() =~= Seq::<Seq<char>>::empty());
            }
        } else {
            proof {
                assert(self.pending() =~= Seq::<Seq<char>>::empty());
            }
        }
    }
}

/// Packs the frames' token sequences, in order, into the run's chunk stream:
/// exactly [`pack_spec`] of the input. The one error, for a zero
/// `token_limit`, is reported before any packing happens.
pub fn pack(frames: &Vec<Vec<String>>, token_limit: usize) -> (r: Result<
    Vec<Vec<String>>,
    PackError,
>)
    ensures
        r is Ok <==> token_limit >= 1,
        r matches Ok(chunks) ==> chunks.deep_view() == pack_spec(
            frames.deep_view(),
            token_limit as int,
        ),
        r matches Err(e) ==> e == PackError::InvalidTokenLimit,
{
    let mut packer = match ChunkPacker::new(token_limit) {
        Ok(p) => p,
        Err(e) => {
            return Err(e);
        },
    };
    let mut out: Vec<Vec<String>> = Vec::new();
    proof {
        assert(out.deep_view() =~= Seq::<Seq<Seq<char>>>::empty());
        assert(frames.deep_view().skip(0) =~= frames.deep_view());
    }
    let mut i: usize = 0;
    while i < frames.len()
        invariant
            i <= frames@.len(),
            packer.wf(),
            packer.spec_token_limit() == token_limit as int,
            pack_frames_from(
                Seq::<Seq<Seq<char>>>::empty(),
                Seq::<Seq<char>>::empty(),
                frames.deep_view(),
                token_limit as int,
            ) == pack_frames_from(
                out.deep_view(),
                packer.pending(),
                frames.deep_view().skip(i as int),
                token_limit as int,
            ),
        decreases frames@.len() - i,
    {
        let ghost rest = frames.deep_view().skip(i as int);
        proof {
            assert(rest[0] == frames.deep_view()[i as int]);
            assert(rest.skip(1) =~= frames.deep_view().skip(i + 1));
        }
        packer.push_frame(&frames[i], &mut out);
        i = i + 1;
    }
    proof {
        assert(frames.deep_view().skip(frames@.len() as int) =~= Seq::<Seq<Seq<char>>>::empty());
    }
    packer.finish(&mut out);
    Ok(out)
}

} // verus!
