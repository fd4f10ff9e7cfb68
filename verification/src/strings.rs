use vstd::prelude::*;

verus! {

// ---------------------------------------------------------------------------
// Mathematical model of strings: a string is its sequence of Unicode scalar
// values (`str`'s view), and a byte offset is the length of the UTF-8
// encoding of a prefix of that sequence.
// ---------------------------------------------------------------------------

/// Number of bytes UTF-8 uses for `c` (the behaviour of `char::len_utf8`).
pub open spec fn utf8_width(c: char) -> nat {
    if (c as u32) <= 0x7F {
        1
    } else if (c as u32) <= 0x7FF {
        2
    } else if (c as u32) <= 0xFFFF {
        3
    } else {
        4
    }
}

/// Byte offset of the `k`-th character of `s` in its UTF-8 encoding.
pub open spec fn byte_offset(s: Seq<char>, k: int) -> nat
    decreases k,
{
    if k <= 0 || s.len() == 0 {
        0
    } else if k > s.len() {
        byte_offset(s, s.len() as int)
    } else {
        byte_offset(s, k - 1) + utf8_width(s[k - 1])
    }
}

/// Length in bytes of the UTF-8 encoding of `s`.
pub open spec fn utf8_len(s: Seq<char>) -> nat {
    byte_offset(s, s.len() as int)
}

/// The UTF-8 encoding of `s` fits in the address space.
pub open spec fn fits_usize(s: Seq<char>) -> bool {
    utf8_len(s) <= usize::MAX
}

/// `b` is a byte offset at which a character of `s` starts (or the end of `s`).
pub open spec fn is_char_boundary(s: Seq<char>, b: int) -> bool {
    exists|k: int| 0 <= k <= s.len() && #[trigger] byte_offset(s, k) == b
}

pub open spec fn min_int(a: int, b: int) -> int {
    if a <= b {
        a
    } else {
        b
    }
}

/// `needle` occurs in `s` starting at character index `i`.
pub open spec fn matches_at(s: Seq<char>, needle: Seq<char>, i: int) -> bool {
    0 <= i && i + needle.len() <= s.len() && s.subrange(i, i + needle.len()) == needle
}

/// Leftmost occurrence of `needle` in `s` at a character index `>= from`.
pub open spec fn first_match(s: Seq<char>, needle: Seq<char>, from: int) -> Option<int>
    decreases s.len() + 1 - from,
{
    if from < 0 || from + needle.len() > s.len() {
        None
    } else if matches_at(s, needle, from) {
        Some(from)
    } else {
        first_match(s, needle, from + 1)
    }
}

// ---------------------------------------------------------------------------
// Lemmas about the model.
// ---------------------------------------------------------------------------

pub proof fn lemma_byte_offset_step(s: Seq<char>, k: int)
    requires
        0 <= k < s.len(),
    ensures
        byte_offset(s, k + 1) == byte_offset(s, k) + utf8_width(s[k]),
        utf8_width(s[k]) >= 1,
{
}

pub proof fn lemma_byte_offset_mono(s: Seq<char>, j: int, k: int)
    requires
        0 <= j <= k <= s.len(),
    ensures
        byte_offset(s, j) + (k - j) <= byte_offset(s, k),
    decreases k - j,
{
    if j < k {
        lemma_byte_offset_mono(s, j, k - 1);
        lemma_byte_offset_step(s, k - 1);
    }
}

pub proof fn lemma_byte_offset_injective(s: Seq<char>, j: int, k: int)
    requires
        0 <= j <= s.len(),
        0 <= k <= s.len(),
        byte_offset(s, j) == byte_offset(s, k),
    ensures
        j == k,
{
    if j < k {
        lemma_byte_offset_mono(s, j, k);
    } else if k < j {
        lemma_byte_offset_mono(s, k, j);
    }
}

pub proof fn lemma_byte_offset_beyond(s: Seq<char>, k: int)
    requires
        k >= s.len(),
    ensures
        byte_offset(s, k) == utf8_len(s),
{
}

pub proof fn lemma_byte_offset_bounded(s: Seq<char>, k: int)
    requires
        0 <= k <= s.len(),
    ensures
        byte_offset(s, k) <= utf8_len(s),
{
    lemma_byte_offset_mono(s, k, s.len() as int);
}

/// A match found by `first_match` really is an occurrence, it is the leftmost
/// one, and nothing before it (from `from` on) matches.
pub proof fn lemma_first_match(s: Seq<char>, needle: Seq<char>, from: int)
    requires
        0 <= from,
    ensures
        first_match(s, needle, from) matches Some(i) ==> {
            &&& from <= i
            &&& matches_at(s, needle, i)
            &&& forall|j: int| from <= j < i ==> !matches_at(s, needle, j)
        },
        first_match(s, needle, from) is None ==> forall|j: int|
            from <= j ==> !matches_at(s, needle, j),
    decreases s.len() + 1 - from,
{
    if from + needle.len() > s.len() {
    } else if matches_at(s, needle, from) {
    } else {
        lemma_first_match(s, needle, from + 1);
    }
}

// ---------------------------------------------------------------------------
// Conversions between `str`/`String` and character vectors.
// ---------------------------------------------------------------------------

/// The characters of `s`, in order.
pub fn chars_of(s: &str) -> (chars: Vec<char>)
    ensures
        chars@ == s@,
{
    let mut chars: Vec<char> = Vec::new();
    for c in it: s.chars()
        invariant
            chars@ == it.seq().take(it.index() as int),
    {
        chars.push(c);
    }
    chars
}


/// Collects characters into a `String` (`FromIterator<char>` for `String`):
/// the string's characters are exactly `chars`, in order.
#[verifier::external_body]
pub(crate) fn string_from_chars(chars: &Vec<char>) -> (s: String)
    ensures
        s@ == chars@,
{
    chars.iter().collect()
}

/// The characters of `s` between character indices `lo` and `hi`.
pub fn chars_between(s: &Vec<char>, lo: usize, hi: usize) -> (out: Vec<char>)
    requires
        lo <= hi <= s.len(),
    ensures
        out@ == s@.subrange(lo as int, hi as int),
{
    let mut out: Vec<char> = Vec::new();
    let mut i: usize = lo;
    while i < hi
        invariant
            lo <= i <= hi <= s.len(),
            out@ == s@.subrange(lo as int, i as int),
        decreases hi - i,
    {
        out.push(s[i]);
        i += 1;
        assert(out@ =~= s@.subrange(lo as int, i as int));
    }
    out
}

/// Appends the characters of `tail` to `out`.
pub fn extend_chars(out: &mut Vec<char>, tail: &Vec<char>)
    ensures
        final(out)@ == old(out)@ + tail@,
{
    let mut i: usize = 0;
    while i < tail.len()
        invariant
            i <= tail.len(),
            out@ == old(out)@ + tail@.take(i as int),
        decreases tail.len() - i,
    {
        out.push(tail[i]);
        i += 1;
        assert(out@ =~= old(out)@ + tail@.take(i as int));
    }
    assert(tail@.take(tail.len() as int) =~= tail@);
}

/// Appends `s[lo..hi]` (character indices) to `out`.
pub fn extend_between(out: &mut Vec<char>, s: &Vec<char>, lo: usize, hi: usize)
    requires
        lo <= hi <= s.len(),
    ensures
        final(out)@ == old(out)@ + s@.subrange(lo as int, hi as int),
{
    let mut i: usize = lo;
    while i < hi
        invariant
            lo <= i <= hi <= s.len(),
            out@ == old(out)@ + s@.subrange(lo as int, i as int),
        decreases hi - i,
    {
        out.push(s[i]);
        i += 1;
        assert(out@ =~= old(out)@ + s@.subrange(lo as int, i as int));
    }
}

// ---------------------------------------------------------------------------
// Index arithmetic.
// ---------------------------------------------------------------------------

/// Number of UTF-8 bytes of `c`.
pub fn utf8_width_of(c: char) -> (w: usize)
    ensures
        w == utf8_width(c),
        1 <= w <= 4,
{
    let v: u32 = c as u32;
    if v <= 0x7F {
        1
    } else if v <= 0x7FF {
        2
    } else if v <= 0xFFFF {
        3
    } else {
        4
    }
}

/// A negative index clamps to 0, an index past the end clamps to `len`.
pub fn clamp_index(index: i64, len: usize) -> (r: usize)
    ensures
        r == (if index < 0 { 0 } else { min_int(index as int, len as int) }),
{
    if index < 0 {
        0
    } else if (index as u64) < (len as u64) {
        index as usize
    } else {
        len
    }
}

/// A negative index counts back from `len` (clamping at 0); a non-negative
/// index clamps to `len`.
pub fn normalize_relative_bound(index: i64, len: usize) -> (r: usize)
    requires
        len <= i64::MAX,
    ensures
        r == (if index < 0 {
            if len + index < 0 { 0 } else { len + index }
        } else {
            min_int(index as int, len as int)
        }),
{
    let len: i64 = len as i64;
    if index < 0 {
        let shifted: i64 = len + index;
        if shifted < 0 {
            0
        } else {
            shifted as usize
        }
    } else if index < len {
        index as usize
    } else {
        len as usize
    }
}

/// Start position of a search: relative when negative, clamped otherwise.
pub fn normalize_search_index(index: i64, len: usize) -> (r: usize)
    requires
        len <= i64::MAX,
    ensures
        r == (if index < 0 {
            if len + index < 0 { 0 } else { len + index }
        } else {
            min_int(index as int, len as int)
        }),
{
    if index < 0 {
        normalize_relative_bound(index, len)
    } else {
        clamp_index(index, len)
    }
}

/// Byte offset of character index `index` within `s` (the byte length of
/// `s` once `index` reaches the end).
pub fn byte_offset_of(s: &Vec<char>, index: usize) -> (b: usize)
    requires
        fits_usize(s@),
    ensures
        b == byte_offset(s@, index as int),
{
    let end: usize = if index < s.len() { index } else { s.len() };
    let mut i: usize = 0;
    let mut b: usize = 0;
    while i < end
        invariant
            end <= s.len(),
            i <= end,
            b == byte_offset(s@, i as int),
            fits_usize(s@),
        decreases end - i,
    {
        proof {
            lemma_byte_offset_step(s@, i as int);
            lemma_byte_offset_bounded(s@, i + 1);
        }
        b = b + utf8_width_of(s[i]);
        i += 1;
    }
    proof {
        if index >= s.len() {
            lemma_byte_offset_beyond(s@, index as int);
        }
    }
    b
}

/// Byte offset in `value` of the character with index `index`; the byte
/// length of `value` when `index` is at or past the end.
pub fn char_index_to_byte_index(value: &str, index: usize) -> (b: usize)
    requires
        fits_usize(value@),
    ensures
        b == byte_offset(value@, index as int),
{
    let chars = chars_of(value);
    byte_offset_of(&chars, index)
}

/// Character index of the character that starts at byte offset `byte`.
pub fn char_index_at_byte(s: &Vec<char>, byte: usize) -> (k: usize)
    requires
        fits_usize(s@),
        is_char_boundary(s@, byte as int),
    ensures
        k <= s.len(),
        byte_offset(s@, k as int) == byte,
{
    let ghost target = choose|k: int| 0 <= k <= s@.len() && #[trigger] byte_offset(s@, k) == byte;
    let mut i: usize = 0;
    let mut b: usize = 0;
    while b < byte
        invariant
            0 <= target <= s.len(),
            byte_offset(s@, target) == byte,
            i <= target,
            b == byte_offset(s@, i as int),
            fits_usize(s@),
        decreases target - i,
    {
        proof {
            if i == target {
                assert(false);
            }
            lemma_byte_offset_step(s@, i as int);
            lemma_byte_offset_bounded(s@, i + 1);
            if i + 1 > target {
                lemma_byte_offset_mono(s@, target, i as int);
            }
        }
        b = b + utf8_width_of(s[i]);
        i += 1;
        proof {
            if i > target {
                lemma_byte_offset_mono(s@, target, i as int);
            }
        }
    }
    proof {
        lemma_byte_offset_mono(s@, i as int, target);
    }
    i
}

/// Number of characters of `value` that precede byte offset `byte_index`.
pub fn byte_index_to_char_index(value: &str, byte_index: usize) -> (k: usize)
    requires
        fits_usize(value@),
        is_char_boundary(value@, byte_index as int),
    ensures
        k <= value@.len(),
        byte_offset(value@, k as int) == byte_index,
{
    let chars = chars_of(value);
    char_index_at_byte(&chars, byte_index)
}

/// Character and byte indices convert back and forth: a character index
/// taken to its byte offset and back is that index, clamped to the number
/// of characters; a character boundary taken to its character index and
/// back is that boundary, the character index being the only one at it.
pub proof fn law_char_byte_index_round_trip(s: Seq<char>, i: int, b: int)
    requires
        0 <= i,
    ensures
        forall|k: int|
            0 <= k <= s.len() && #[trigger] byte_offset(s, k) == byte_offset(s, i) ==> k == min_int(
                i,
                s.len() as int,
            ),
        is_char_boundary(s, b) ==> forall|k: int|
            0 <= k <= s.len() && #[trigger] byte_offset(s, k) == b ==> byte_offset(s, k) == b && forall|
                j: int,
            |
                0 <= j <= s.len() && #[trigger] byte_offset(s, j) == b ==> j == k,
{
    let m = min_int(i, s.len() as int);
    if i > s.len() {
        lemma_byte_offset_beyond(s, i);
    }
    assert(byte_offset(s, i) == byte_offset(s, m));
    assert forall|k: int| 0 <= k <= s.len() && #[trigger] byte_offset(s, k) == byte_offset(s, i) implies k == m by {
        lemma_byte_offset_injective(s, k, m);
    }
    assert forall|k: int, j: int|
        0 <= k <= s.len() && 0 <= j <= s.len() && #[trigger] byte_offset(s, k) == b && #[trigger] byte_offset(
            s,
            j,
        ) == b implies j == k by {
        lemma_byte_offset_injective(s, k, j);
    }
}

/// Whether the UTF-8 encoding of `value` fits in the address space, which
/// the index conversions require: a caller with a string of unknown content
/// tests it here first.
pub fn fits_in_usize(value: &str) -> (b: bool)
    ensures
        b == fits_usize(value@),
{
    let chars = chars_of(value);
    let mut total: usize = 0;
    let mut i: usize = 0;
    while i < chars.len()
        invariant
            chars@ == value@,
            i <= chars@.len(),
            total == byte_offset(chars@, i as int),
        decreases chars.len() - i,
    {
        proof {
            lemma_byte_offset_step(chars@, i as int);
        }
        let w = utf8_width_of(chars[i]);
        if total > usize::MAX - w {
            proof {
                lemma_byte_offset_bounded(chars@, i + 1);
            }
            return false;
        }
        total = total + w;
        i = i + 1;
    }
    true
}

/// The character index after `index`, never past the end of `value`.
pub fn advance_char_index(value: &str, index: usize) -> (r: usize)
    ensures
        r == min_int(index + 1, value@.len() as int),
{
    let chars = chars_of(value);
    let total: usize = chars.len();
    if index < total {
        index + 1
    } else {
        total
    }
}

// ---------------------------------------------------------------------------
// Literal search.
// ---------------------------------------------------------------------------

/// Whether `needle` occurs in `s` at character index `i`.
pub fn matches_at_exec(s: &Vec<char>, needle: &Vec<char>, i: usize) -> (b: bool)
    requires
        i + needle.len() <= s.len(),
    ensures
        b == matches_at(s@, needle@, i as int),
{
    let mut j: usize = 0;
    while j < needle.len()
        invariant
            j <= needle.len(),
            i + needle.len() <= s.len(),
            forall|k: int| 0 <= k < j ==> s@[i + k] == needle@[k],
        decreases needle.len() - j,
    {
        if s[i + j] != needle[j] {
            assert(s@.subrange(i as int, i + needle.len())[j as int] != needle@[j as int]);
            return false;
        }
        j += 1;
    }
    assert(s@.subrange(i as int, i + needle.len()) =~= needle@);
    true
}

/// Leftmost occurrence of `needle` in `s` at or after character index `start`.
pub fn find_from(s: &Vec<char>, needle: &Vec<char>, start: usize) -> (r: Option<usize>)
    requires
        start <= s.len(),
    ensures
        match r {
            Some(i) => first_match(s@, needle@, start as int) == Some(i as int),
            None => first_match(s@, needle@, start as int) is None,
        },
{
    let mut i: usize = start;
    while needle.len() <= s.len() - i
        invariant
            start <= i <= s.len(),
            first_match(s@, needle@, start as int) == first_match(s@, needle@, i as int),
        decreases s.len() - i,
    {
        if matches_at_exec(s, needle, i) {
            return Some(i);
        }
        if i == s.len() {
            assert(first_match(s@, needle@, i + 1) is None);
            return None;
        }
        i += 1;
    }
    None
}

/// Character index of the leftmost occurrence of `needle` in `value` at or
/// after character index `start` (searching from the end when `start` is
/// past it).
pub fn find_string_pattern(value: &str, needle: &str, start: usize) -> (r: Option<usize>)
    ensures
        match r {
            Some(i) => first_match(value@, needle@, min_int(start as int, value@.len() as int))
                == Some(i as int),
            None => first_match(value@, needle@, min_int(start as int, value@.len() as int))
                is None,
        },
{
    let s = chars_of(value);
    let n = chars_of(needle);
    let st: usize = if start < s.len() { start } else { s.len() };
    find_from(&s, &n, st)
}


// ---------------------------------------------------------------------------
// Splitting and replacing.
// ---------------------------------------------------------------------------

/// The pieces of `s[pos..]` between consecutive leftmost occurrences of a
/// non-empty `sep` (one more piece than there are separators).
pub open spec fn split_pieces(s: Seq<char>, sep: Seq<char>, pos: int) -> Seq<Seq<char>>
    decreases s.len() + 1 - pos,
{
    if sep.len() == 0 || pos < 0 || pos > s.len() {
        seq![]
    } else {
        match first_match(s, sep, pos) {
            None => seq![s.subrange(pos, s.len() as int)],
            Some(i) => {
                proof {
                    lemma_first_match(s, sep, pos);
                }
                seq![s.subrange(pos, i)] + split_pieces(s, sep, i + sep.len())
            },
        }
    }
}

/// The result of `split_string_by_pattern` on character sequences.
pub open spec fn split_spec(s: Seq<char>, separator: Option<Seq<char>>, limit: nat) -> Seq<
    Seq<char>,
> {
    match separator {
        None => seq![s],
        Some(sep) => if sep.len() == 0 {
            if limit == 0 || s.len() == 0 {
                seq![]
            } else {
                Seq::new(min_int(limit as int, s.len() as int) as nat, |i: int| seq![s[i]])
            }
        } else {
            let pieces = split_pieces(s, sep, 0);
            if limit == 0 {
                pieces.drop_last()
            } else {
                pieces.take(min_int(limit as int, pieces.len() as int))
            }
        },
    }
}

/// The character sequences of a vector of strings.
pub open spec fn strings_view(v: Seq<String>) -> Seq<Seq<char>> {
    v.map_values(|x: String| x@)
}

proof fn lemma_split_pieces_nonempty(s: Seq<char>, sep: Seq<char>, pos: int)
    requires
        sep.len() > 0,
        0 <= pos <= s.len(),
    ensures
        split_pieces(s, sep, pos).len() >= 1,
    decreases s.len() + 1 - pos,
{
    lemma_first_match(s, sep, pos);
    if let Some(i) = first_match(s, sep, pos) {
        lemma_split_pieces_nonempty(s, sep, i + sep.len());
    }
}

/// Splits `value` on a literal separator, keeping at most `limit` pieces.
/// Without a separator the whole string is the only piece; an empty
/// separator splits into single characters.
pub fn split_string_by_pattern(value: &str, separator: Option<&str>, limit: usize) -> (parts: Vec<
    String,
>)
    ensures
        strings_view(parts@) == split_spec(
            value@,
            match separator {
                Some(sep) => Some(sep@),
                None => None,
            },
            limit as nat,
        ),
{
    let mut parts: Vec<String> = Vec::new();
    match separator {
        None => {
            let whole = chars_of(value);
            parts.push(string_from_chars(&whole));
            assert(strings_view(parts@) =~= seq![value@]);
            parts
        },
        Some(sep_str) => {
            let s = chars_of(value);
            let sep = chars_of(sep_str);
            if sep.len() == 0 {
                if limit == 0 || s.len() == 0 {
                    assert(strings_view(parts@) =~= seq![]);
                    return parts;
                }
                let ghost expected = Seq::new(
                    min_int(limit as int, s.len() as int) as nat,
                    |i: int| seq![s@[i]],
                );
                let mut i: usize = 0;
                while i < s.len() && i < limit
                    invariant
                        i <= s.len(),
                        i <= limit,
                        parts.len() == i,
                        expected == Seq::new(
                            min_int(limit as int, s.len() as int) as nat,
                            |i: int| seq![s@[i]],
                        ),
                        strings_view(parts@) =~= expected.take(i as int),
                    decreases s.len() - i,
                {
                    let one = chars_between(&s, i, i + 1);
                    let ghost before = strings_view(parts@);
                    assert(one@ =~= seq![s@[i as int]]);
                    parts.push(string_from_chars(&one));
                    assert(strings_view(parts@) =~= before.push(one@));
                    i += 1;
                    assert(strings_view(parts@) =~= expected.take(i as int));
                }
                assert(expected.take(i as int) =~= expected);
                return parts;
            }
            let ghost pieces = split_pieces(s@, sep@, 0);
            let mut pos: usize = 0;
            loop
                invariant
                    sep@.len() > 0,
                    s@ == value@,
                    sep@ == sep_str@,
                    separator == Some(sep_str),
                    pos <= s.len(),
                    pieces == split_pieces(s@, sep@, 0),
                    pieces == strings_view(parts@) + split_pieces(s@, sep@, pos as int),
                    limit == 0 || parts.len() < limit,
                decreases s.len() + 1 - pos,
            {
                match find_from(&s, &sep, pos) {
                    Some(index) => {
                        proof {
                            lemma_first_match(s@, sep@, pos as int);
                            lemma_split_pieces_nonempty(s@, sep@, index + sep.len());
                        }
                        let piece = chars_between(&s, pos, index);
                        let ghost before = strings_view(parts@);
                        let ghost rest = split_pieces(s@, sep@, index + sep.len());
                        assert(split_pieces(s@, sep@, pos as int) == seq![piece@] + rest);
                        if limit > 0 && parts.len() == limit - 1 {
                            parts.push(string_from_chars(&piece));
                            assert(strings_view(parts@) =~= before.push(piece@));
                            assert(pieces =~= strings_view(parts@) + rest);
                            assert(pieces.take(limit as int) =~= strings_view(parts@));
                            return parts;
                        }
                        parts.push(string_from_chars(&piece));
                        assert(strings_view(parts@) =~= before.push(piece@));
                        assert(pieces =~= strings_view(parts@) + rest);
                        pos = index + sep.len();
                    },
                    None => {
                        let tail = chars_between(&s, pos, s.len());
                        let ghost before = strings_view(parts@);
                        assert(split_pieces(s@, sep@, pos as int) == seq![tail@]);
                        if parts.len() < limit {
                            parts.push(string_from_chars(&tail));
                            assert(strings_view(parts@) =~= before.push(tail@));
                            assert(pieces =~= strings_view(parts@));
                            assert(pieces.take(pieces.len() as int) =~= pieces);
                        } else {
                            assert(pieces.drop_last() =~= strings_view(parts@));
                        }
                        return parts;
                    },
                }
            }
        },
    }
}

/// Result of replacing every leftmost, non-overlapping occurrence of a
/// non-empty `search` in `s[pos..]` by `rep`.
pub open spec fn replace_all_from(s: Seq<char>, search: Seq<char>, rep: Seq<char>, pos: int) -> Seq<
    char,
>
    decreases s.len() + 1 - pos,
{
    if search.len() == 0 || pos < 0 || pos > s.len() {
        seq![]
    } else {
        match first_match(s, search, pos) {
            None => s.subrange(pos, s.len() as int),
            Some(i) => {
                proof {
                    lemma_first_match(s, search, pos);
                }
                s.subrange(pos, i) + rep + replace_all_from(s, search, rep, i + search.len())
            },
        }
    }
}

/// `rep` inserted before every character of `s[k..]` and once more at the end.
pub open spec fn interleave_from(s: Seq<char>, rep: Seq<char>, k: int) -> Seq<char>
    decreases s.len() - k,
{
    if k < 0 || k >= s.len() {
        rep
    } else {
        rep + seq![s[k]] + interleave_from(s, rep, k + 1)
    }
}

/// The result of `replace_all_string_matches` on character sequences.
pub open spec fn replace_all_spec(s: Seq<char>, search: Seq<char>, rep: Seq<char>) -> Seq<char> {
    if search.len() == 0 {
        interleave_from(s, rep, 0)
    } else {
        replace_all_from(s, search, rep, 0)
    }
}

/// The result of `replace_first_string_match` on character sequences.
pub open spec fn replace_first_spec(s: Seq<char>, search: Seq<char>, rep: Seq<char>) -> Seq<char> {
    if search.len() == 0 {
        rep + s
    } else {
        match first_match(s, search, 0) {
            None => s,
            Some(i) => s.take(i) + rep + s.skip(i + search.len()),
        }
    }
}

/// Replaces every occurrence of `search` in `value` by `replacement`
/// (an empty `search` matches before every character and at the end).
pub fn replace_all_string_matches(value: &str, search: &str, replacement: &str) -> (out: String)
    ensures
        out@ == replace_all_spec(value@, search@, replacement@),
{
    let s = chars_of(value);
    let pat = chars_of(search);
    let rep = chars_of(replacement);
    let mut result: Vec<char> = Vec::new();
    if pat.len() == 0 {
        let mut k: usize = 0;
        while k < s.len()
            invariant
                k <= s.len(),
                result@ + interleave_from(s@, rep@, k as int) == interleave_from(s@, rep@, 0),
            decreases s.len() - k,
        {
            let ghost before = result@;
            extend_chars(&mut result, &rep);
            result.push(s[k]);
            assert(interleave_from(s@, rep@, k as int) == rep@ + seq![s@[k as int]]
                + interleave_from(s@, rep@, k + 1));
            assert(result@ =~= before + rep@ + seq![s@[k as int]]);
            k += 1;
        }
        extend_chars(&mut result, &rep);
        return string_from_chars(&result);
    }
    let mut pos: usize = 0;
    loop
        invariant
            pat@.len() > 0,
            s@ == value@,
            pat@ == search@,
            rep@ == replacement@,
            pos <= s.len(),
            result@ + replace_all_from(s@, pat@, rep@, pos as int) == replace_all_from(
                s@,
                pat@,
                rep@,
                0,
            ),
        decreases s.len() + 1 - pos,
    {
        match find_from(&s, &pat, pos) {
            Some(index) => {
                proof {
                    lemma_first_match(s@, pat@, pos as int);
                }
                let ghost before = result@;
                extend_between(&mut result, &s, pos, index);
                extend_chars(&mut result, &rep);
                assert(result@ =~= before + s@.subrange(pos as int, index as int) + rep@);
                pos = index + pat.len();
            },
            None => {
                let ghost before = result@;
                extend_between(&mut result, &s, pos, s.len());
                assert(result@ =~= before + replace_all_from(s@, pat@, rep@, pos as int));
                return string_from_chars(&result);
            },
        }
    }
}

/// Replaces the first occurrence of `search` in `value` by `replacement`
/// (an empty `search` matches at the start).
pub fn replace_first_string_match(value: &str, search: &str, replacement: &str) -> (out: String)
    ensures
        out@ == replace_first_spec(value@, search@, replacement@),
{
    let s = chars_of(value);
    let pat = chars_of(search);
    let rep = chars_of(replacement);
    let mut result: Vec<char> = Vec::new();
    if pat.len() == 0 {
        extend_chars(&mut result, &rep);
        extend_chars(&mut result, &s);
        return string_from_chars(&result);
    }
    match find_from(&s, &pat, 0) {
        None => string_from_chars(&s),
        Some(index) => {
            proof {
                lemma_first_match(s@, pat@, 0);
            }
            extend_between(&mut result, &s, 0, index);
            extend_chars(&mut result, &rep);
            extend_between(&mut result, &s, index + pat.len(), s.len());
            assert(s@.subrange(0, index as int) =~= s@.take(index as int));
            assert(s@.subrange(index + pat.len(), s.len() as int) =~= s@.skip(
                index + pat.len(),
            ));
            string_from_chars(&result)
        },
    }
}

} // verus!
