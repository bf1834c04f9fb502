//! The whole run over a list of files already read into memory: frame each
//! file, tokenize its frame, and pack every frame's tokens, in order, into
//! the run's chunk stream.

use vstd::prelude::*;

use crate::frame;
use crate::packer;
use crate::packer::PackError;
use crate::tokenizer;

verus! {

/// One file as the enumeration and the reader hand it over: its path exactly
/// as enumerated, and the lines that were successfully read, in order.
pub struct FileEntry {
    pub path: String,
    pub lines: Vec<String>,
}

/// The token sequence of one file's frame: its provenance header followed by
/// its lines, tokenized.
pub open spec fn frame_tokens_spec(path: Seq<char>, lines: Seq<Seq<char>>) -> Seq<Seq<char>> {
    tokenizer::tokenize_spec(frame::frame_text_spec(path, lines))
}

/// The frames of a whole run: each file's frame token sequence, in
/// enumeration order.
pub open spec fn files_frames_spec(files: Seq<FileEntry>) -> Seq<Seq<Seq<char>>> {
    files.map(|i: int, f: FileEntry| frame_tokens_spec(f.path@, f.lines.deep_view()))
}

/// Frames, tokenizes and packs the given files, in order: the result is
/// exactly [`packer::pack_spec`] of the files' frame token sequences. The one
/// error, for a zero `token_limit`, is reported before any file is framed.
pub fn pack_files(files: &Vec<FileEntry>, token_limit: usize) -> (r: Result<
    Vec<Vec<String>>,
    PackError,
>)
    ensures
        r is Ok <==> token_limit >= 1,
        r matches Ok(chunks) ==> chunks.deep_view() == packer::pack_spec(
            files_frames_spec(files@),
            token_limit as int,
        ),
        r matches Err(e) ==> e == PackError::InvalidTokenLimit,
{
    if token_limit == 0 {
        return Err(PackError::InvalidTokenLimit);
    }
    let ghost all_frames = files_frames_spec(files@);
    let mut frames: Vec<Vec<String>> = Vec::new();
    proof {
        assert(frames.deep_view() =~= all_frames.take(0));
    }
    let mut i: usize = 0;
    while i < files.len()
        invariant
            i <= files@.len(),
            all_frames == files_frames_spec(files@),
            frames.deep_view() == all_frames.take(i as int),
        decreases files@.len() - i,
    {
        let entry = &files[i];
        let text = frame::build_frame(entry.path.as_str(), &entry.lines);
        let tokens = tokenizer::tokenize(text);
        let ghost before = frames.deep_view();
        frames.push(tokens);
        proof {
            assert(tokens.deep_view() == all_frames[i as int]);
            assert(frames.deep_view() =~= before.push(tokens.deep_view()));
            assert(before.push(all_frames[i as int]) =~= all_frames.take(i + 1));
        }
        i = i + 1;
    }
    proof {
        assert(all_frames.take(files@.len() as int) =~= all_frames);
    }
    packer::pack(&frames, token_limit)
}

} // verus!
