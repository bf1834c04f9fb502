//! Splitting text into tokens.
//!
//! A token is a maximal run of characters that are not boundary characters.
//! A boundary character is any whitespace character other than `'\n'`:
//! newlines are retained inside the token that precedes them, so that
//! line-ending information survives tokenization.

use vstd::prelude::*;

verus! {

/// Whether `c` has Unicode's `White_Space` property (the characters that
/// `char::is_whitespace` accepts).
pub open spec fn is_space_char(c: char) -> bool {
    let u = c as u32;
    ||| u == 0x20
    ||| (0x09 <= u && u <= 0x0D)
    ||| u == 0x85
    ||| u == 0xA0
    ||| u == 0x1680
    ||| (0x2000 <= u && u <= 0x200A)
    ||| u == 0x2028
    ||| u == 0x2029
    ||| u == 0x202F
    ||| u == 0x205F
    ||| u == 0x3000
}

/// Whether `c` separates tokens: whitespace, except that `'\n'` is kept
/// inside tokens.
pub open spec fn is_boundary_char(c: char) -> bool {
    is_space_char(c) && c != '\n'
}

/// The tokens of `s` with `cur` the partial token accumulated so far:
/// a boundary character finishes `cur` (an empty `cur` yields no token),
/// any other character extends it.
pub open spec fn tokenize_from(s: Seq<char>, cur: Seq<char>) -> Seq<Seq<char>>
    decreases s.len(),
{
    if s.len() == 0 {
        if cur.len() > 0 {
            seq![cur]
        } else {
            Seq::<Seq<char>>::empty()
        }
    } else if is_boundary_char(s[0]) {
        if cur.len() > 0 {
            seq![cur] + tokenize_from(s.skip(1), Seq::<char>::empty())
        } else {
            tokenize_from(s.skip(1), Seq::<char>::empty())
        }
    } else {
        tokenize_from(s.skip(1), cur.push(s[0]))
    }
}

/// The token sequence of `s`: the maximal non-boundary runs of `s`, in order.
pub open spec fn tokenize_spec(s: Seq<char>) -> Seq<Seq<char>> {
    tokenize_from(s, Seq::<char>::empty())
}

/// Whether `c` separates tokens (the executable form of [`is_boundary_char`]).
fn boundary(c: char) -> (r: bool)
    ensures
        r == is_boundary_char(c),
{
    let u = c as u32;
    let space = u == 0x20 || (0x09 <= u && u <= 0x0D) || u == 0x85 || u == 0xA0 || u == 0x1680
        || (0x2000 <= u && u <= 0x200A) || u == 0x2028 || u == 0x2029 || u == 0x202F || u == 0x205F
        || u == 0x3000;
    space && c != '\n'
}

/// Splits `content` into its tokens: the maximal runs of non-boundary
/// characters, in order, with newlines retained in-token. An empty input,
/// or one made of boundary characters alone, yields an empty vector.
pub fn tokenize(content: String) -> (r: Vec<String>)
    ensures
        r.deep_view() == tokenize_spec(content@),
{
    let s = content.as_str();
    let n = s.unicode_len();
    let mut r: Vec<String> = Vec::new();
    let mut start: usize = 0;
    let mut i: usize = 0;
    proof {
        assert(s@.skip(0) =~= s@);
        assert(s@.subrange(0, 0) =~= Seq::<char>::empty());
        assert(r.deep_view() =~= Seq::<Seq<char>>::empty());
        assert(r.deep_view() + tokenize_from(s@, Seq::<char>::empty()) =~= tokenize_from(
            s@,
            Seq::<char>::empty(),
        ));
    }
    while i < n
        invariant
            i <= n,
            start <= i,
            n == s@.len(),
            tokenize_spec(content@) == r.deep_view() + tokenize_from(
                s@.skip(i as int),
                s@.subrange(start as int, i as int),
            ),
            content@ == s@,
        decreases n - i,
    {
        let c = s.get_char(i);
        let ghost rest = s@.skip(i as int);
        let ghost cur = s@.subrange(start as int, i as int);
        assert(rest[0] == s@[i as int]);
        assert(rest.skip(1) =~= s@.skip(i + 1));
        if boundary(c) {
            if start < i {
                let token = s.substring_char(start, i).to_owned();
                assert(token@ == cur);
                let ghost old_r = r.deep_view();
                r.push(token);
                assert(r.deep_view() =~= old_r.push(token@));
                assert(old_r.push(cur) =~= old_r + seq![cur]);
            }
            start = i + 1;
            assert(s@.subrange(start as int, start as int) =~= Seq::<char>::empty());
        } else {
            assert(s@.subrange(start as int, i + 1) =~= cur.push(s@[i as int]));
        }
        i = i + 1;
    }
    assert(s@.skip(n as int) =~= Seq::<char>::empty());
    if start < n {
        let token = s.substring_char(start, n).to_owned();
        let ghost old_r = r.deep_view();
        r.push(token);
        assert(r.deep_view() =~= old_r.push(token@));
        assert(old_r.push(token@) =~= old_r + seq![token@]);
    }
    r
}

} // verus!
