//! Text handling for collaborator output.
//!
//! The collaborator reports remote names as lines of text and the current
//! branch as a line that may carry surrounding whitespace. The functions
//! here split such output into lines and trim each line, with the exact
//! meaning stated over character sequences.

use vstd::prelude::*;

verus! {

/// The characters with the Unicode `White_Space` property: what trimming
/// removes from either end of a line.
pub open spec fn is_space_char(c: char) -> bool {
    let u = c as u32;
    u == 0x20 || u == 0x09 || u == 0x0a || u == 0x0b || u == 0x0c || u == 0x0d || u == 0x85
        || u == 0xa0 || u == 0x1680 || (0x2000 <= u && u <= 0x200a) || u == 0x2028 || u == 0x2029
        || u == 0x202f || u == 0x205f || u == 0x3000
}

fn is_space(c: char) -> (r: bool)
    ensures
        r == is_space_char(c),
{
    let u = c as u32;
    u == 0x20 || u == 0x09 || u == 0x0a || u == 0x0b || u == 0x0c || u == 0x0d || u == 0x85
        || u == 0xa0 || u == 0x1680 || (0x2000 <= u && u <= 0x200a) || u == 0x2028 || u == 0x2029
        || u == 0x202f || u == 0x205f || u == 0x3000
}

pub open spec fn spec_trim_front(s: Seq<char>) -> Seq<char>
    decreases s.len(),
{
    if s.len() > 0 && is_space_char(s[0]) {
        spec_trim_front(s.drop_first())
    } else {
        s
    }
}

pub open spec fn spec_trim_back(s: Seq<char>) -> Seq<char>
    decreases s.len(),
{
    if s.len() > 0 && is_space_char(s.last()) {
        spec_trim_back(s.drop_last())
    } else {
        s
    }
}

/// `s` with leading and trailing whitespace removed.
pub open spec fn spec_trimmed(s: Seq<char>) -> Seq<char> {
    spec_trim_back(spec_trim_front(s))
}

/// Executable trim matching `spec_trimmed`.
pub fn trim_str(s: &str) -> (r: String)
    ensures
        r@ == spec_trimmed(s@),
{
    let len: usize = s.unicode_len();
    let mut start: usize = 0;
    proof {
        assert(s@.skip(0) =~= s@);
    }
    while start < len && is_space(s.get_char(start))
        invariant
            start <= len,
            len == s@.len(),
            spec_trim_front(s@) == spec_trim_front(s@.skip(start as int)),
        decreases len - start,
    {
        proof {
            assert(s@.skip(start as int)[0] == s@[start as int]);
            assert(s@.skip(start as int).drop_first() =~= s@.skip(start as int + 1));
        }
        start = start + 1;
    }
    proof {
        if start < len {
            assert(s@.skip(start as int)[0] == s@[start as int]);
        }
        assert(spec_trim_front(s@) == s@.skip(start as int));
        assert(s@.skip(start as int) =~= s@.subrange(start as int, len as int));
    }
    let mut end: usize = len;
    while end > start && is_space(s.get_char(end - 1))
        invariant
            start <= end <= len,
            len == s@.len(),
            spec_trim_back(s@.subrange(start as int, len as int)) == spec_trim_back(
                s@.subrange(start as int, end as int),
            ),
        decreases end,
    {
        proof {
            let piece = s@.subrange(start as int, end as int);
            assert(piece.last() == s@[end - 1]);
            assert(piece.drop_last() =~= s@.subrange(start as int, end as int - 1));
        }
        end = end - 1;
    }
    proof {
        let piece = s@.subrange(start as int, end as int);
        if end > start {
            assert(piece.last() == s@[end - 1]);
        }
        assert(spec_trim_back(piece) == piece);
    }
    let r = s.substring_char(start, end);
    r.to_owned()
}

/// The pieces of `s` between newline characters: one more piece than there
/// are newlines, in order; an empty `s` is one empty piece.
pub open spec fn spec_split_newlines(s: Seq<char>) -> Seq<Seq<char>>
    decreases s.len(),
{
    if s.len() == 0 {
        seq![Seq::<char>::empty()]
    } else {
        let init = spec_split_newlines(s.drop_last());
        if s.last() == '\n' {
            init.push(Seq::<char>::empty())
        } else {
            init.update(init.len() - 1, init.last().push(s.last()))
        }
    }
}

pub proof fn lemma_split_newlines_nonempty(s: Seq<char>)
    ensures
        spec_split_newlines(s).len() >= 1,
    decreases s.len(),
{
    if s.len() > 0 {
        lemma_split_newlines_nonempty(s.drop_last());
    }
}

/// The remote names held in collaborator output: the output's lines, each
/// trimmed, a trailing empty piece (from a final newline) dropped.
pub open spec fn spec_remote_names(s: Seq<char>) -> Seq<Seq<char>> {
    let pieces = spec_split_newlines(s);
    let kept = if pieces.last().len() == 0 {
        pieces.drop_last()
    } else {
        pieces
    };
    kept.map_values(|p: Seq<char>| spec_trimmed(p))
}

/// Split `s` at newline characters, matching `spec_split_newlines`.
pub fn split_newlines(s: &str) -> (r: Vec<String>)
    ensures
        r.deep_view() == spec_split_newlines(s@),
{
    let len: usize = s.unicode_len();
    let mut pieces: Vec<String> = Vec::new();
    let mut piece_start: usize = 0;
    let mut i: usize = 0;
    proof {
        assert(s@.take(0) =~= Seq::<char>::empty());
        assert(s@.subrange(0, 0) =~= Seq::<char>::empty());
    }
    while i < len
        invariant
            piece_start <= i <= len,
            len == s@.len(),
            spec_split_newlines(s@.take(i as int)) == pieces.deep_view().push(
                s@.subrange(piece_start as int, i as int),
            ),
        decreases len - i,
    {
        let ghost prev = s@.take(i as int);
        let ghost cur = s@.subrange(piece_start as int, i as int);
        let c = s.get_char(i);
        proof {
            assert(s@.take(i as int + 1).drop_last() =~= prev);
            assert(s@.take(i as int + 1).last() == s@[i as int]);
        }
        if c == '\n' {
            let piece = s.substring_char(piece_start, i);
            pieces.push(piece.to_owned());
            piece_start = i + 1;
            proof {
                lemma_split_newlines_nonempty(prev);
                assert(spec_split_newlines(s@.take(i as int + 1)) == spec_split_newlines(
                    prev,
                ).push(Seq::<char>::empty()));
                assert(pieces.deep_view() =~= spec_split_newlines(prev));
                assert(s@.subrange(i as int + 1, i as int + 1) =~= Seq::<char>::empty());
            }
        } else {
            proof {
                let init = spec_split_newlines(prev);
                lemma_split_newlines_nonempty(prev);
                assert(init.last() == cur);
                assert(init.update(init.len() - 1, init.last().push(s@[i as int])).drop_last()
                    =~= init.drop_last());
                assert(spec_split_newlines(s@.take(i as int + 1)) =~= init.drop_last().push(
                    cur.push(s@[i as int]),
                ));
                assert(init.drop_last() =~= pieces.deep_view());
                assert(cur.push(s@[i as int]) =~= s@.subrange(piece_start as int, i as int + 1));
            }
        }
        i = i + 1;
    }
    let piece = s.substring_char(piece_start, len);
    pieces.push(piece.to_owned());
    proof {
        assert(s@.take(len as int) =~= s@);
        assert(pieces.deep_view() =~= spec_split_newlines(s@));
    }
    pieces
}

/// The lines of collaborator output, each trimmed, matching
/// `spec_remote_names`.
pub fn parse_remote_names(s: &str) -> (r: Vec<String>)
    ensures
        r.deep_view() == spec_remote_names(s@),
{
    let mut pieces = split_newlines(s);
    proof {
        lemma_split_newlines_nonempty(s@);
    }
    if pieces[pieces.len() - 1].as_str().unicode_len() == 0 {
        pieces.pop();
        proof {
            assert(pieces.deep_view() =~= spec_split_newlines(s@).drop_last());
        }
    }
    let ghost kept = pieces.deep_view();
    let mut out: Vec<String> = Vec::new();
    let mut i: usize = 0;
    while i < pieces.len()
        invariant
            i <= pieces.len(),
            pieces.deep_view() == kept,
            out.deep_view() == kept.take(i as int).map_values(|p: Seq<char>| spec_trimmed(p)),
        decreases pieces.len() - i,
    {
        let trimmed = trim_str(pieces[i].as_str());
        out.push(trimmed);
        proof {
            assert(out.deep_view() =~= kept.take(i as int + 1).map_values(
                |p: Seq<char>| spec_trimmed(p),
            )) by {
                let f = |p: Seq<char>| spec_trimmed(p);
                let prev = kept.take(i as int).map_values(f);
                let next = kept.take(i as int + 1).map_values(f);
                assert(next.len() == prev.len() + 1);
                assert forall|j: int| 0 <= j < next.len() implies next[j] == out.deep_view()[j] by {
                    assert(kept.take(i as int + 1)[j] == kept[j]);
                    if j < i as int {
                        assert(kept.take(i as int)[j] == kept[j]);
                        assert(prev[j] == f(kept[j]));
                    }
                }
            }
        }
        i = i + 1;
    }
    proof {
        assert(kept.take(i as int) =~= kept);
    }
    out
}

/// `names` joined with `sep` between consecutive entries.
pub open spec fn spec_joined(names: Seq<Seq<char>>, sep: Seq<char>) -> Seq<char>
    decreases names.len(),
{
    if names.len() == 0 {
        Seq::<char>::empty()
    } else if names.len() == 1 {
        names[0]
    } else {
        spec_joined(names.drop_last(), sep) + sep + names.last()
    }
}

/// Join `names` with `sep`, matching `spec_joined`.
pub fn join_names(names: &Vec<String>, sep: &str) -> (r: String)
    ensures
        r@ == spec_joined(names.deep_view(), sep@),
{
    let mut r = String::new();
    let mut i: usize = 0;
    proof {
        assert(names.deep_view().take(0) =~= Seq::<Seq<char>>::empty());
    }
    while i < names.len()
        invariant
            i <= names.len(),
            r@ == spec_joined(names.deep_view().take(i as int), sep@),
        decreases names.len() - i,
    {
        let ghost prev = names.deep_view().take(i as int);
        let ghost next = names.deep_view().take(i as int + 1);
        if i > 0 {
            r.append(sep);
        }
        r.append(names[i].as_str());
        proof {
            assert(next.drop_last() =~= prev);
            assert(next.last() == names.deep_view()[i as int]);
            if i == 0 {
                assert(r@ =~= spec_joined(next, sep@));
            } else {
                assert(r@ =~= spec_joined(prev, sep@) + sep@ + names.deep_view()[i as int]);
            }
        }
        i = i + 1;
    }
    proof {
        assert(names.deep_view().take(i as int) =~= names.deep_view());
    }
    r
}

} // verus!
