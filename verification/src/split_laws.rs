//! Laws of `split_string_by_pattern`, stated over `split_spec`.

use vstd::prelude::*;

use crate::strings::{first_match, lemma_first_match, matches_at, min_int, split_pieces, split_spec};

verus! {

/// `parts` joined with `sep` between each two.
pub open spec fn join_with(parts: Seq<Seq<char>>, sep: Seq<char>) -> Seq<char>
    decreases parts.len(),
{
    if parts.len() == 0 {
        seq![]
    } else if parts.len() == 1 {
        parts[0]
    } else {
        parts[0] + sep + join_with(parts.drop_first(), sep)
    }
}

/// `needle` occurs somewhere in `s`.
pub open spec fn occurs_in(s: Seq<char>, needle: Seq<char>) -> bool {
    exists|j: int| matches_at(s, needle, j)
}

/// How many leftmost, non-overlapping occurrences of `sep` there are in
/// `s` from `pos` on.
pub open spec fn match_count(s: Seq<char>, sep: Seq<char>, pos: int) -> nat
    decreases s.len() + 1 - pos,
{
    if sep.len() == 0 || pos < 0 || pos > s.len() {
        0
    } else {
        match first_match(s, sep, pos) {
            None => 0,
            Some(i) => {
                proof {
                    lemma_first_match(s, sep, pos);
                }
                1 + match_count(s, sep, i + sep.len())
            },
        }
    }
}

proof fn lemma_pieces(s: Seq<char>, sep: Seq<char>, pos: int)
    requires
        sep.len() > 0,
        0 <= pos <= s.len(),
    ensures
        split_pieces(s, sep, pos).len() >= 1,
        split_pieces(s, sep, pos).len() == match_count(s, sep, pos) + 1,
        split_pieces(s, sep, pos).len() <= s.len() - pos + 1,
        join_with(split_pieces(s, sep, pos), sep) == s.subrange(pos, s.len() as int),
        forall|k: int|
            0 <= k < split_pieces(s, sep, pos).len() ==> !occurs_in(
                #[trigger] split_pieces(s, sep, pos)[k],
                sep,
            ),
    decreases s.len() + 1 - pos,
{
    lemma_first_match(s, sep, pos);
    let pieces = split_pieces(s, sep, pos);
    match first_match(s, sep, pos) {
        None => {
            let piece = s.subrange(pos, s.len() as int);
            assert(pieces == seq![piece]);
            assert forall|j: int| !matches_at(piece, sep, j) by {
                if matches_at(piece, sep, j) {
                    assert(s.subrange(pos + j, pos + j + sep.len()) =~= piece.subrange(j, j + sep.len()));
                    assert(matches_at(s, sep, pos + j));
                }
            }
            assert(!occurs_in(pieces[0], sep));
        },
        Some(i) => {
            let next = i + sep.len();
            lemma_pieces(s, sep, next);
            let rest = split_pieces(s, sep, next);
            let piece = s.subrange(pos, i);
            assert(pieces == seq![piece] + rest);
            assert(pieces.drop_first() =~= rest);
            assert(s.subrange(i, next) == sep);
            assert(join_with(pieces, sep) == piece + sep + join_with(rest, sep));
            assert(s.subrange(pos, s.len() as int) =~= piece + sep + s.subrange(next, s.len() as int));
            assert forall|j: int| !matches_at(piece, sep, j) by {
                if matches_at(piece, sep, j) {
                    assert(s.subrange(pos + j, pos + j + sep.len()) =~= piece.subrange(j, j + sep.len()));
                    assert(matches_at(s, sep, pos + j));
                }
            }
            assert forall|k: int| 0 <= k < pieces.len() implies !occurs_in(#[trigger] pieces[k], sep) by {
                if k > 0 {
                    assert(pieces[k] == rest[k - 1]);
                }
            }
        },
    }
}

/// Splitting on a non-empty separator with no limit gives pieces that
/// join back, with the separator between them, into the original string;
/// there is one more piece than there are leftmost, non-overlapping
/// occurrences of the separator, and no piece contains the separator.
pub proof fn law_split_rejoins(s: Seq<char>, sep: Seq<char>)
    requires
        sep.len() > 0,
        s.len() < usize::MAX,
    ensures
        join_with(split_spec(s, Some(sep), usize::MAX as nat), sep) == s,
        split_spec(s, Some(sep), usize::MAX as nat).len() == match_count(s, sep, 0) + 1,
        forall|k: int|
            0 <= k < split_spec(s, Some(sep), usize::MAX as nat).len() ==> !occurs_in(
                #[trigger] split_spec(s, Some(sep), usize::MAX as nat)[k],
                sep,
            ),
{
    lemma_pieces(s, sep, 0);
    let pieces = split_pieces(s, sep, 0);
    assert(pieces.take(min_int(usize::MAX as int, pieces.len() as int)) =~= pieces);
    assert(s.subrange(0, s.len() as int) =~= s);
}

/// A limit of one or more keeps the first pieces of the unlimited split:
/// as many as the limit says, or all of them if there are fewer.
pub proof fn law_split_limit_prefix(s: Seq<char>, separator: Option<Seq<char>>, limit: nat)
    requires
        limit >= 1,
        s.len() < usize::MAX,
    ensures
        split_spec(s, separator, limit) == split_spec(s, separator, usize::MAX as nat).take(
            min_int(limit as int, split_spec(s, separator, usize::MAX as nat).len() as int),
        ),
{
    let full = split_spec(s, separator, usize::MAX as nat);
    match separator {
        None => {
            assert(full.take(1) =~= full);
        },
        Some(sep) => {
            if sep.len() == 0 {
                if s.len() == 0 {
                    assert(full.take(0) =~= full);
                } else {
                    assert(split_spec(s, separator, limit) =~= full.take(min_int(limit as int, full.len() as int)));
                }
            } else {
                lemma_pieces(s, sep, 0);
                let pieces = split_pieces(s, sep, 0);
                assert(full =~= pieces);
                assert(split_spec(s, separator, limit) =~= pieces.take(min_int(limit as int, pieces.len() as int)));
            }
        },
    }
}

} // verus!
