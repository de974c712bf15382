//! Command lines: a program and its arguments, separated by single spaces.

use vstd::prelude::*;
use vstd::string::StrSliceExecFns;

verus! {

/// The index of the first space in `s`, or `s.len()` if it holds none.
pub open spec fn first_space(s: Seq<char>) -> int
    decreases s.len(),
{
    if s.len() == 0 || s[0] == ' ' {
        0
    } else {
        1 + first_space(s.drop_first())
    }
}

/// The pieces of `s` between its spaces, in order. Every space separates two
/// pieces, so neighbouring spaces give an empty piece, and a text without
/// spaces is its own single piece.
pub open spec fn split_on_space(s: Seq<char>) -> Seq<Seq<char>>
    decreases s.len(),
{
    let i = first_space(s);
    if i < 0 || i >= s.len() {
        seq![s]
    } else {
        seq![s.take(i)] + split_on_space(s.skip(i + 1))
    }
}

/// The texts of a list of strings.
pub open spec fn texts(v: Seq<String>) -> Seq<Seq<char>> {
    Seq::new(v.len(), |i: int| v[i]@)
}

/// `first_space` is the one index before which no space stands and at which
/// either a space stands or the text ends.
pub proof fn lemma_first_space(s: Seq<char>, k: int)
    requires
        0 <= k <= s.len(),
        forall|j: int| 0 <= j < k ==> s[j] != ' ',
        k < s.len() ==> s[k] == ' ',
    ensures
        first_space(s) == k,
    decreases s.len(),
{
    if s.len() == 0 || s[0] == ' ' {
    } else {
        let rest = s.drop_first();
        assert forall|j: int| 0 <= j < k - 1 implies rest[j] != ' ' by {
            assert(rest[j] == s[j + 1]);
        }
        lemma_first_space(rest, k - 1);
    }
}

/// No piece of a split text holds a space, and there is always a piece.
pub proof fn lemma_split_pieces(s: Seq<char>)
    ensures
        split_on_space(s).len() >= 1,
        forall|p: int, j: int|
            0 <= p < split_on_space(s).len() && 0 <= j < split_on_space(s)[p].len()
                ==> split_on_space(s)[p][j] != ' ',
    decreases s.len(),
{
    lemma_first_space_bounds(s);
    let i = first_space(s);
    if i < s.len() {
        lemma_split_pieces(s.skip(i + 1));
    }
}

/// `first_space` lies within the text, past no space.
pub proof fn lemma_first_space_bounds(s: Seq<char>)
    ensures
        0 <= first_space(s) <= s.len(),
        forall|j: int| 0 <= j < first_space(s) ==> s[j] != ' ',
        first_space(s) < s.len() ==> s[first_space(s)] == ' ',
    decreases s.len(),
{
    if s.len() == 0 || s[0] == ' ' {
    } else {
        let rest = s.drop_first();
        lemma_first_space_bounds(rest);
        assert forall|j: int| 0 <= j < first_space(s) implies s[j] != ' ' by {
            if j > 0 {
                assert(rest[j - 1] == s[j]);
            }
        }
    }
}

/// Splits a command line at every space into the program and its arguments.
pub fn split_command(cmd: &str) -> (params: Vec<String>)
    ensures
        texts(params@) == split_on_space(cmd@),
{
    let n = cmd.unicode_len();
    let mut params: Vec<String> = Vec::new();
    let mut start: usize = 0;
    let mut i: usize = 0;
    proof {
        assert(cmd@.skip(0) == cmd@);
        assert(texts(params@) + split_on_space(cmd@) == split_on_space(cmd@));
    }
    while i < n
        invariant
            n == cmd@.len(),
            start <= i <= n,
            forall|j: int| start <= j < i ==> cmd@[j] != ' ',
            split_on_space(cmd@) == texts(params@) + split_on_space(cmd@.skip(start as int)),
        decreases n - i,
    {
        let c = cmd.get_char(i);
        if c == ' ' {
            let piece = cmd.substring_char(start, i).to_owned();
            proof {
                let rest = cmd@.skip(start as int);
                lemma_first_space(rest, i - start);
                assert(rest.take(i - start) == cmd@.subrange(start as int, i as int));
                assert(rest.skip(i - start + 1) == cmd@.skip(i + 1));
                assert(texts(params@.push(piece)) == texts(params@) + seq![piece@]);
            }
            params.push(piece);
            start = i + 1;
        }
        i = i + 1;
    }
    let piece = cmd.substring_char(start, n).to_owned();
    proof {
        let rest = cmd@.skip(start as int);
        lemma_first_space(rest, n - start);
        assert(rest == cmd@.subrange(start as int, n as int));
        assert(texts(params@.push(piece)) == texts(params@) + seq![piece@]);
    }
    params.push(piece);
    params
}

} // verus!
