//! Building one file's frame: its provenance header followed by its lines.
//!
//! A frame is the single string handed to the tokenizer for one file. It
//! starts with the header `=====<path>=====` and a newline, and then holds
//! each line of the file in order, each with exactly one newline appended
//! (a missing trailing newline in the source is normalized to present).

use vstd::prelude::*;

verus! {

/// The provenance header for `path`: `=====<path>=====` followed by a newline.
pub open spec fn header_spec(path: Seq<char>) -> Seq<char> {
    "=====<"@ + path + ">=====\n"@
}

/// The body text for `lines`: each line in order with one newline appended.
pub open spec fn body_spec(lines: Seq<Seq<char>>) -> Seq<char>
    decreases lines.len(),
{
    if lines.len() == 0 {
        Seq::<char>::empty()
    } else {
        lines[0] + seq!['\n'] + body_spec(lines.skip(1))
    }
}

/// The full frame text for one file: header, then body.
pub open spec fn frame_text_spec(path: Seq<char>, lines: Seq<Seq<char>>) -> Seq<char> {
    header_spec(path) + body_spec(lines)
}

/// Builds the frame string for the file at `path` whose content is `lines`:
/// the header `=====<path>=====\n`, then each line with a newline appended.
pub fn build_frame(path: &str, lines: &Vec<String>) -> (r: String)
    ensures
        r@ == frame_text_spec(path@, lines.deep_view()),
{
    let mut r = String::new();
    r.append("=====<");
    r.append(path);
    r.append(">=====\n");
    proof {
        assert(r@ =~= header_spec(path@));
        assert(lines.deep_view().skip(0) =~= lines.deep_view());
    }
    let mut i: usize = 0;
    while i < lines.len()
        invariant
            i <= lines.len(),
            r@ + body_spec(lines.deep_view().skip(i as int)) == frame_text_spec(
                path@,
                lines.deep_view(),
            ),
        decreases lines.len() - i,
    {
        let ghost rest = lines.deep_view().skip(i as int);
        proof {
            assert(rest[0] == lines.deep_view()[i as int]);
            assert(rest.skip(1) =~= lines.deep_view().skip(i + 1));
            reveal_strlit("\n");
            assert("\n"@ =~= seq!['\n']);
        }
        r.append(lines[i].as_str());
        r.append("\n");
        i = i + 1;
    }
    proof {
        assert(lines.deep_view().skip(lines@.len() as int) =~= Seq::<Seq<char>>::empty());
        assert(r@ + Seq::<char>::empty() =~= r@);
    }
    r
}

/// Builds the search pattern `directory/**/pattern`, which selects every
/// file under `directory`, recursively, whose name matches `pattern`.
pub fn search_pattern(directory: &str, pattern: &str) -> (r: String)
    ensures
        r@ == directory@ + "/**/"@ + pattern@,
{
    let mut r = String::new();
    r.append(directory);
    r.append("/**/");
    r.append(pattern);
    proof {
        assert(r@ =~= directory@ + "/**/"@ + pattern@);
    }
    r
}

} // verus!
