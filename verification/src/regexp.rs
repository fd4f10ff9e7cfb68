use indexmap::IndexMap;
use vstd::prelude::*;

use crate::diagnostic::{is_runtime_error, JsliteError, JsliteResult};
use crate::strings::{
    byte_offset, byte_offset_of, char_index_at_byte, chars_of, extend_between, extend_chars,
    find_from, first_match, fits_usize, is_char_boundary, lemma_first_match, string_from_chars,
};

verus! {

// ---------------------------------------------------------------------------
// The insertion-ordered map of named capture groups.
// ---------------------------------------------------------------------------

#[verifier::external_type_specification]
#[verifier::external_body]
#[verifier::reject_recursive_types(K)]
#[verifier::reject_recursive_types(V)]
#[verifier::reject_recursive_types(S)]
pub struct ExIndexMap<K, V, S>(IndexMap<K, V, S>);

/// What a map of named capture groups holds: for each group name, the text
/// the group captured, if it took part in the match.
pub uninterp spec fn named_group_entries(groups: IndexMap<String, Option<String>>) -> Map<
    Seq<char>,
    Option<Seq<char>>,
>;

/// `IndexMap::new`: a map with no entries.
#[verifier::external_body]
fn empty_named_groups() -> (r: IndexMap<String, Option<String>>)
    ensures
        named_group_entries(r) =~= Map::empty(),
{
    IndexMap::new()
}

pub open spec fn opt_view(o: Option<String>) -> Option<Seq<char>> {
    match o {
        Some(s) => Some(s@),
        None => None,
    }
}

/// `IndexMap::get` (cloned): the entry stored under a key equal to `name`.
#[verifier::external_body]
fn named_group_get(groups: &IndexMap<String, Option<String>>, name: &String) -> (r: Option<
    Option<String>,
>)
    ensures
        r is Some <==> named_group_entries(*groups).dom().contains(name@),
        r matches Some(v) ==> opt_view(v) == named_group_entries(*groups)[name@],
{
    groups.get(name).cloned()
}

// ---------------------------------------------------------------------------
// Match data.
// ---------------------------------------------------------------------------

/// One match of a pattern inside an input string: its byte and character
/// range, the text of each numbered group and the named groups.
#[derive(Debug)]
pub struct RegExpMatchData {
    pub start_byte: usize,
    pub end_byte: usize,
    pub start_index: usize,
    pub end_index: usize,
    pub captures: Vec<Option<String>>,
    pub named_groups: IndexMap<String, Option<String>>,
}

/// The match covers characters `start_index..end_index` of `input`, and its
/// byte offsets are those of these character indices.
pub open spec fn match_in(m: RegExpMatchData, input: Seq<char>) -> bool {
    &&& m.start_index <= m.end_index <= input.len()
    &&& m.start_byte == byte_offset(input, m.start_index as int)
    &&& m.end_byte == byte_offset(input, m.end_index as int)
}

/// Character index at which byte offset `b` of `input` starts.
pub open spec fn char_at_byte(input: Seq<char>, b: int) -> int {
    choose|k: int| 0 <= k <= input.len() && #[trigger] byte_offset(input, k) == b
}

/// Start of every leftmost, non-overlapping occurrence of a non-empty
/// `needle` in `s` at or after `from`.
pub open spec fn literal_match_starts(s: Seq<char>, needle: Seq<char>, from: int) -> Seq<int>
    decreases s.len() + 1 - from,
{
    if needle.len() == 0 || from < 0 || from > s.len() {
        seq![]
    } else {
        match first_match(s, needle, from) {
            None => seq![],
            Some(i) => {
                proof {
                    lemma_first_match(s, needle, from);
                }
                seq![i] + literal_match_starts(s, needle, i + needle.len())
            },
        }
    }
}

/// Starts of the matches `collect_literal_matches` reports: every position
/// for an empty needle, the leftmost non-overlapping occurrences otherwise.
pub open spec fn literal_matches_spec(s: Seq<char>, needle: Seq<char>) -> Seq<int> {
    if needle.len() == 0 {
        Seq::new((s.len() + 1) as nat, |i: int| i)
    } else {
        literal_match_starts(s, needle, 0)
    }
}

/// `m` is the match of `needle` at character index `start` of `input`,
/// without groups.
pub open spec fn is_literal_match(
    m: RegExpMatchData,
    input: Seq<char>,
    needle: Seq<char>,
    start: int,
) -> bool {
    &&& m.start_index == start
    &&& m.end_index == start + needle.len()
    &&& match_in(m, input)
    &&& m.captures@.len() == 0
    &&& named_group_entries(m.named_groups) == Map::<Seq<char>, Option<Seq<char>>>::empty()
}

fn make_match(input: &Vec<char>, start: usize, end: usize) -> (m: RegExpMatchData)
    requires
        start <= end <= input.len(),
        fits_usize(input@),
    ensures
        m.start_index == start,
        m.end_index == end,
        match_in(m, input@),
        m.captures@.len() == 0,
        named_group_entries(m.named_groups) == Map::<Seq<char>, Option<Seq<char>>>::empty(),
{
    RegExpMatchData {
        start_byte: byte_offset_of(input, start),
        end_byte: byte_offset_of(input, end),
        start_index: start,
        end_index: end,
        captures: Vec::new(),
        named_groups: empty_named_groups(),
    }
}

/// Every match of the literal `needle` in `value`: an empty needle matches
/// at each character position and at the end; a non-empty needle matches
/// at its leftmost non-overlapping occurrences.
pub fn collect_literal_matches(value: &str, needle: &str) -> (matches: Vec<RegExpMatchData>)
    requires
        fits_usize(value@),
    ensures
        matches@.len() == literal_matches_spec(value@, needle@).len(),
        forall|k: int|
            0 <= k < matches@.len() ==> is_literal_match(
                #[trigger] matches@[k],
                value@,
                needle@,
                literal_matches_spec(value@, needle@)[k],
            ),
{
    let s = chars_of(value);
    let pat = chars_of(needle);
    let mut matches: Vec<RegExpMatchData> = Vec::new();
    if pat.len() == 0 {
        let ghost expected = literal_matches_spec(value@, needle@);
        let mut index: usize = 0;
        while index < s.len()
            invariant
                s@ == value@,
                pat@ == needle@,
                pat@.len() == 0,
                fits_usize(s@),
                index <= s.len(),
                matches@.len() == index,
                expected == literal_matches_spec(value@, needle@),
                forall|k: int|
                    0 <= k < index ==> is_literal_match(
                        #[trigger] matches@[k],
                        value@,
                        needle@,
                        expected[k],
                    ),
            decreases s.len() - index,
        {
            let m = make_match(&s, index, index);
            matches.push(m);
            index += 1;
        }
        let m = make_match(&s, index, index);
        matches.push(m);
        return matches;
    }
    let ghost expected = literal_match_starts(s@, pat@, 0);
    let mut pos: usize = 0;
    loop
        invariant
            s@ == value@,
            pat@ == needle@,
            pat@.len() > 0,
            fits_usize(s@),
            pos <= s.len(),
            expected == literal_match_starts(s@, pat@, 0),
            expected == literal_matches_spec(value@, needle@),
            expected =~= Seq::new(matches@.len() as nat, |k: int| expected[k]) + literal_match_starts(
                s@,
                pat@,
                pos as int,
            ),
            forall|k: int|
                0 <= k < matches@.len() ==> is_literal_match(
                    #[trigger] matches@[k],
                    value@,
                    needle@,
                    expected[k],
                ),
        decreases s.len() + 1 - pos,
    {
        match find_from(&s, &pat, pos) {
            Some(index) => {
                proof {
                    lemma_first_match(s@, pat@, pos as int);
                }
                let ghost rest = literal_match_starts(s@, pat@, index + pat.len());
                assert(literal_match_starts(s@, pat@, pos as int) == seq![index as int] + rest);
                let ghost n = matches@.len();
                let m = make_match(&s, index, index + pat.len());
                matches.push(m);
                pos = index + pat.len();
                assert(expected[n as int] == index as int);
                assert(expected =~= Seq::new(matches@.len() as nat, |k: int| expected[k])
                    + literal_match_starts(s@, pat@, pos as int));
            },
            None => {
                assert(literal_match_starts(s@, pat@, pos as int) == Seq::<int>::empty());
                return matches;
            },
        }
    }
}

// ---------------------------------------------------------------------------
// Replacement templates (`$&`, `` $` ``, `$'`, `$n`, `$nn`, `$<name>`, `$$`).
// ---------------------------------------------------------------------------

pub open spec fn is_ascii_digit(c: char) -> bool {
    '0' <= c && c <= '9'
}

pub open spec fn digit_value(c: char) -> int {
    (c as u32) - ('0' as u32)
}

/// Index of the first `>` at or after `from`.
pub open spec fn closing_angle(rep: Seq<char>, from: int) -> Option<int>
    decreases rep.len() - from,
{
    if from < 0 || from >= rep.len() {
        None
    } else if rep[from] == '>' {
        Some(from)
    } else {
        closing_angle(rep, from + 1)
    }
}

pub proof fn lemma_closing_angle(rep: Seq<char>, from: int)
    requires
        0 <= from,
    ensures
        closing_angle(rep, from) matches Some(q) ==> from <= q < rep.len() && rep[q] == '>'
            && forall|j: int| from <= j < q ==> rep[j] != '>',
        closing_angle(rep, from) is None ==> forall|j: int| from <= j < rep.len() ==> rep[j] != '>',
    decreases rep.len() - from,
{
    if from < rep.len() && rep[from] != '>' {
        lemma_closing_angle(rep, from + 1);
    }
}

/// Text of numbered group `idx` (1-based); empty when it did not take part.
pub open spec fn group_text(m: RegExpMatchData, idx: int) -> Seq<char> {
    if 1 <= idx <= m.captures@.len() {
        match m.captures@[idx - 1] {
            Some(v) => v@,
            None => seq![],
        }
    } else {
        seq![]
    }
}

/// Text of the named group `name`; empty when there is none or it did not
/// take part.
pub open spec fn named_text(m: RegExpMatchData, name: Seq<char>) -> Seq<char> {
    if named_group_entries(m.named_groups).dom().contains(name) {
        match named_group_entries(m.named_groups)[name] {
            Some(v) => v,
            None => seq![],
        }
    } else {
        seq![]
    }
}

/// Whether the group reference at `pos` (a digit after `$`) is read as a
/// two-digit group number.
pub open spec fn two_digit_group(rep: Seq<char>, pos: int, m: RegExpMatchData) -> bool {
    pos + 2 < rep.len() && is_ascii_digit(rep[pos + 2]) && digit_value(rep[pos + 1]) * 10
        + digit_value(rep[pos + 2]) <= m.captures@.len()
}

/// Expansion of `rep[pos..]` for the match `m` of `input`.
pub open spec fn expand_from(
    rep: Seq<char>,
    pos: int,
    input: Seq<char>,
    m: RegExpMatchData,
) -> Seq<char>
    decreases rep.len() - pos,
{
    if pos < 0 || pos >= rep.len() {
        seq![]
    } else if rep[pos] != '$' {
        seq![rep[pos]] + expand_from(rep, pos + 1, input, m)
    } else if pos + 1 >= rep.len() {
        seq!['$']
    } else {
        let n = rep[pos + 1];
        if n == '$' {
            seq!['$'] + expand_from(rep, pos + 2, input, m)
        } else if n == '&' {
            input.subrange(
                char_at_byte(input, m.start_byte as int),
                char_at_byte(input, m.end_byte as int),
            ) + expand_from(rep, pos + 2, input, m)
        } else if n == '`' {
            input.take(char_at_byte(input, m.start_byte as int)) + expand_from(
                rep,
                pos + 2,
                input,
                m,
            )
        } else if n == '\'' {
            input.skip(char_at_byte(input, m.end_byte as int)) + expand_from(
                rep,
                pos + 2,
                input,
                m,
            )
        } else if n == '<' {
            match closing_angle(rep, pos + 2) {
                Some(q) => {
                    proof {
                        lemma_closing_angle(rep, pos + 2);
                    }
                    named_text(m, rep.subrange(pos + 2, q)) + expand_from(rep, q + 1, input, m)
                },
                None => seq!['$', '<'] + rep.subrange(pos + 2, rep.len() as int),
            }
        } else if '1' <= n && n <= '9' {
            if two_digit_group(rep, pos, m) {
                group_text(m, digit_value(n) * 10 + digit_value(rep[pos + 2])) + expand_from(
                    rep,
                    pos + 3,
                    input,
                    m,
                )
            } else {
                group_text(m, digit_value(n)) + expand_from(rep, pos + 2, input, m)
            }
        } else {
            seq!['$'] + expand_from(rep, pos + 1, input, m)
        }
    }
}

/// Whether expanding `rep[pos..]` reads the input through the reference
/// `$` followed by `which` (one of `&`, `` ` ``, `'`).
pub open spec fn template_uses(rep: Seq<char>, pos: int, which: char) -> bool
    decreases rep.len() - pos,
{
    if pos < 0 || pos >= rep.len() {
        false
    } else if rep[pos] != '$' {
        template_uses(rep, pos + 1, which)
    } else if pos + 1 >= rep.len() {
        false
    } else {
        let n = rep[pos + 1];
        if n == which {
            true
        } else if n == '$' || n == '&' || n == '`' || n == '\'' {
            template_uses(rep, pos + 2, which)
        } else if n == '<' {
            match closing_angle(rep, pos + 2) {
                Some(q) => {
                    proof {
                        lemma_closing_angle(rep, pos + 2);
                    }
                    template_uses(rep, q + 1, which)
                },
                None => false,
            }
        } else if '1' <= n && n <= '9' {
            if pos + 2 < rep.len() && is_ascii_digit(rep[pos + 2]) {
                template_uses(rep, pos + 3, which) || template_uses(rep, pos + 2, which)
            } else {
                template_uses(rep, pos + 2, which)
            }
        } else {
            template_uses(rep, pos + 1, which)
        }
    }
}

/// What expanding `rep` needs of the match's byte offsets: the ones the
/// template reads are character boundaries of `input`, in order.
pub open spec fn template_bytes_ok(rep: Seq<char>, pos: int, input: Seq<char>, m: RegExpMatchData) -> bool {
    &&& template_uses(rep, pos, '&') ==> is_char_boundary(input, m.start_byte as int)
        && is_char_boundary(input, m.end_byte as int) && m.start_byte <= m.end_byte
    &&& template_uses(rep, pos, '`') ==> is_char_boundary(input, m.start_byte as int)
    &&& template_uses(rep, pos, '\'') ==> is_char_boundary(input, m.end_byte as int)
}

proof fn lemma_char_at_byte(input: Seq<char>, b: int)
    requires
        is_char_boundary(input, b),
    ensures
        0 <= char_at_byte(input, b) <= input.len(),
        byte_offset(input, char_at_byte(input, b)) == b,
        forall|k: int| 0 <= k <= input.len() && byte_offset(input, k) == b ==> k == char_at_byte(input, b),
{
    let k0 = char_at_byte(input, b);
    assert forall|k: int| 0 <= k <= input.len() && byte_offset(input, k) == b implies k == k0 by {
        crate::strings::lemma_byte_offset_injective(input, k, k0);
    }
}

/// `$n` with a single digit `n` between 1 and the number of groups (and no
/// digit after it that would make a group number of two digits) expands to
/// the text of the `n`-th group, counted from 1, or to nothing when that
/// group did not take part; the rest of the template expands after it.
pub proof fn law_numbered_group_reference(rep: Seq<char>, pos: int, input: Seq<char>, m: RegExpMatchData)
    requires
        0 <= pos,
        pos + 1 < rep.len(),
        rep[pos] == '$',
        '1' <= rep[pos + 1] <= '9',
        (rep[pos + 1] as u32) - ('0' as u32) <= m.captures@.len(),
        !(pos + 2 < rep.len() && '0' <= rep[pos + 2] <= '9'),
    ensures
        expand_from(rep, pos, input, m) == (match m.captures@[(rep[pos + 1] as u32) - ('1' as u32)] {
            Some(text) => text@,
            None => Seq::<char>::empty(),
        }) + expand_from(rep, pos + 2, input, m),
{
}

/// `$nm` with two digits naming a group between 10 and the number of groups
/// expands to the text of that group, counted from 1, or to nothing when it
/// did not take part.
pub proof fn law_two_digit_group_reference(rep: Seq<char>, pos: int, input: Seq<char>, m: RegExpMatchData)
    requires
        0 <= pos,
        pos + 2 < rep.len(),
        rep[pos] == '$',
        '1' <= rep[pos + 1] <= '9',
        '0' <= rep[pos + 2] <= '9',
        ((rep[pos + 1] as u32) - ('0' as u32)) * 10 + ((rep[pos + 2] as u32) - ('0' as u32))
            <= m.captures@.len(),
    ensures
        expand_from(rep, pos, input, m) == (match m.captures@[((rep[pos + 1] as u32) - ('0' as u32)) * 10
            + ((rep[pos + 2] as u32) - ('0' as u32)) - 1] {
            Some(text) => text@,
            None => Seq::<char>::empty(),
        }) + expand_from(rep, pos + 3, input, m),
{
}

/// For a match of `input`, `$&` expands to the matched text, `` $` `` to the
/// text before the match, `$'` to the text after it and `$$` to one dollar
/// sign, each followed by the rest of the template.
pub proof fn law_match_references(rep: Seq<char>, pos: int, input: Seq<char>, m: RegExpMatchData)
    requires
        0 <= pos,
        pos + 1 < rep.len(),
        rep[pos] == '$',
        match_in(m, input),
    ensures
        rep[pos + 1] == '&' ==> expand_from(rep, pos, input, m) == input.subrange(
            m.start_index as int,
            m.end_index as int,
        ) + expand_from(rep, pos + 2, input, m),
        rep[pos + 1] == '`' ==> expand_from(rep, pos, input, m) == input.take(m.start_index as int)
            + expand_from(rep, pos + 2, input, m),
        rep[pos + 1] == '\'' ==> expand_from(rep, pos, input, m) == input.skip(m.end_index as int)
            + expand_from(rep, pos + 2, input, m),
        rep[pos + 1] == '$' ==> expand_from(rep, pos, input, m) == seq!['$'] + expand_from(rep, pos + 2, input, m),
{
    assert(is_char_boundary(input, m.start_byte as int)) by {
        assert(byte_offset(input, m.start_index as int) == m.start_byte);
    }
    assert(is_char_boundary(input, m.end_byte as int)) by {
        assert(byte_offset(input, m.end_index as int) == m.end_byte);
    }
    lemma_char_at_byte(input, m.start_byte as int);
    lemma_char_at_byte(input, m.end_byte as int);
}

/// Expands a replacement template for the match `matched` of `input`:
/// `$$` is a dollar sign, `$&` the matched text, `` $` `` the text before
/// the match, `$'` the text after it, `$1`..`$99` a numbered group and
/// `$<name>` a named group; any other `$` is kept as is.
pub fn expand_regexp_replacement_template(
    replacement: &str,
    input: &str,
    matched: &RegExpMatchData,
) -> (out: String)
    requires
        fits_usize(input@),
        template_bytes_ok(replacement@, 0, input@, *matched),
    ensures
        out@ == expand_from(replacement@, 0, input@, *matched),
{
    let rep = chars_of(replacement);
    let text = chars_of(input);
    let mut result: Vec<char> = Vec::new();
    let mut pos: usize = 0;
    while pos < rep.len()
        invariant
            rep@ == replacement@,
            text@ == input@,
            fits_usize(text@),
            pos <= rep.len(),
            template_bytes_ok(rep@, pos as int, text@, *matched),
            result@ + expand_from(rep@, pos as int, text@, *matched) == expand_from(
                rep@,
                0,
                text@,
                *matched,
            ),
        decreases rep.len() - pos,
    {
        let ghost before = result@;
        let ch = rep[pos];
        if ch != '$' {
            result.push(ch);
            pos += 1;
            continue;
        }
        if pos + 1 >= rep.len() {
            result.push('$');
            pos += 1;
            assert(expand_from(rep@, pos as int, text@, *matched) == Seq::<char>::empty());
            continue;
        }
        let next = rep[pos + 1];
        if next == '$' {
            result.push('$');
            pos += 2;
        } else if next == '&' {
            let start = char_index_at_byte(&text, matched.start_byte);
            let end = char_index_at_byte(&text, matched.end_byte);
            proof {
                lemma_char_at_byte(text@, matched.start_byte as int);
                lemma_char_at_byte(text@, matched.end_byte as int);
                if start > end {
                    crate::strings::lemma_byte_offset_mono(text@, end as int, start as int);
                }
            }
            extend_between(&mut result, &text, start, end);
            pos += 2;
        } else if next == '`' {
            let start = char_index_at_byte(&text, matched.start_byte);
            proof {
                lemma_char_at_byte(text@, matched.start_byte as int);
            }
            extend_between(&mut result, &text, 0, start);
            assert(text@.subrange(0, start as int) =~= text@.take(start as int));
            pos += 2;
        } else if next == '\'' {
            let end = char_index_at_byte(&text, matched.end_byte);
            proof {
                lemma_char_at_byte(text@, matched.end_byte as int);
            }
            extend_between(&mut result, &text, end, text.len());
            assert(text@.subrange(end as int, text@.len() as int) =~= text@.skip(end as int));
            pos += 2;
        } else if next == '<' {
            proof {
                lemma_closing_angle(rep@, pos + 2);
            }
            let mut q: usize = pos + 2;
            while q < rep.len() && rep[q] != '>'
                invariant
                    pos + 2 <= q <= rep.len(),
                    forall|j: int| pos + 2 <= j < q ==> rep@[j] != '>',
                decreases rep.len() - q,
            {
                q += 1;
            }
            if q < rep.len() {
                assert(closing_angle(rep@, pos + 2) == Some(q as int)) by {
                    if closing_angle(rep@, pos + 2) is None {
                    } else {
                        let q0 = closing_angle(rep@, pos + 2)->0;
                        if q0 < q {
                        } else if q0 > q {
                        }
                    }
                }
                let name_chars = crate::strings::chars_between(&rep, pos + 2, q);
                let name = string_from_chars(&name_chars);
                match named_group_get(&matched.named_groups, &name) {
                    Some(Some(value)) => {
                        let value_chars = chars_of(value.as_str());
                        extend_chars(&mut result, &value_chars);
                    },
                    _ => {},
                }
                pos = q + 1;
            } else {
                assert(closing_angle(rep@, pos + 2) is None);
                result.push('$');
                result.push('<');
                extend_between(&mut result, &rep, pos + 2, rep.len());
                assert(result@ =~= before + (seq!['$', '<'] + rep@.subrange(
                    pos + 2,
                    rep@.len() as int,
                )));
                return string_from_chars(&result);
            }
        } else if '1' <= next && next <= '9' {
            let d: usize = (next as u32 - '0' as u32) as usize;
            let mut index: usize = d;
            let mut step: usize = 2;
            if pos + 2 < rep.len() {
                let following = rep[pos + 2];
                if '0' <= following && following <= '9' {
                    let candidate: usize = d * 10 + (following as u32 - '0' as u32) as usize;
                    if candidate <= matched.captures.len() {
                        index = candidate;
                        step = 3;
                    }
                }
            }
            if index > 0 && index - 1 < matched.captures.len() {
                match &matched.captures[index - 1] {
                    Some(value) => {
                        let value_chars = chars_of(value.as_str());
                        extend_chars(&mut result, &value_chars);
                    },
                    None => {},
                }
            }
            pos += step;
        } else {
            result.push('$');
            pos += 1;
        }
        assert(result@ + expand_from(rep@, pos as int, text@, *matched) == expand_from(
            rep@,
            0,
            text@,
            *matched,
        ));
    }
    string_from_chars(&result)
}


// ---------------------------------------------------------------------------
// Flags.
// ---------------------------------------------------------------------------

/// The flags of a regular expression.
#[derive(Debug, Clone, Copy, PartialEq, Eq)]
pub struct RegExpFlagsState {
    pub global: bool,
    pub ignore_case: bool,
    pub multiline: bool,
    pub dot_all: bool,
    pub unicode: bool,
    pub sticky: bool,
}

pub open spec fn is_supported_flag(c: char) -> bool {
    c == 'g' || c == 'i' || c == 'm' || c == 's' || c == 'u' || c == 'y'
}

/// The flag at `p` is refused: it repeats an earlier flag or is unknown.
pub open spec fn flag_rejected_at(s: Seq<char>, p: int) -> bool {
    s.take(p).contains(s[p]) || !is_supported_flag(s[p])
}

/// Position of the first refused flag.
pub open spec fn first_bad_flag(s: Seq<char>) -> Option<int> {
    if exists|p: int| 0 <= p < s.len() && flag_rejected_at(s, p) {
        Some(choose|p: int| 0 <= p < s.len() && flag_rejected_at(s, p) && forall|q: int|
            0 <= q < p ==> !flag_rejected_at(s, q))
    } else {
        None
    }
}

/// The message reported for the refused flag at `p`.
pub open spec fn flag_error_message(s: Seq<char>, p: int) -> Seq<char> {
    if s.take(p).contains(s[p]) {
        "SyntaxError: duplicate regular expression flag `"@ + seq![s[p], '`']
    } else {
        "SyntaxError: unsupported regular expression flag `"@ + seq![s[p], '`']
    }
}

fn flag_error(prefix: &str, flag: char) -> (e: JsliteError)
    ensures
        is_runtime_error(e, prefix@ + seq![flag, '`']),
{
    let mut message = chars_of(prefix);
    message.push(flag);
    message.push('`');
    assert(message@ =~= prefix@ + seq![flag, '`']);
    JsliteError::runtime(string_from_chars(&message))
}

/// Parses a flags string: each of `g`, `i`, `m`, `s`, `u`, `y` at most once;
/// the first repeated or unknown flag is reported as a `SyntaxError`.
pub fn validate_regexp_flags(flags: &str) -> (r: JsliteResult<RegExpFlagsState>)
    ensures
        match first_bad_flag(flags@) {
            None => r matches Ok(state) && state.global == flags@.contains('g') && state.ignore_case
                == flags@.contains('i') && state.multiline == flags@.contains('m') && state.dot_all
                == flags@.contains('s') && state.unicode == flags@.contains('u') && state.sticky
                == flags@.contains('y'),
            Some(p) => r matches Err(e) && is_runtime_error(e, flag_error_message(flags@, p)),
        },
{
    let chars = chars_of(flags);
    let mut state = RegExpFlagsState {
        global: false,
        ignore_case: false,
        multiline: false,
        dot_all: false,
        unicode: false,
        sticky: false,
    };
    let mut i: usize = 0;
    while i < chars.len()
        invariant
            chars@ == flags@,
            i <= chars.len(),
            forall|q: int| 0 <= q < i ==> !flag_rejected_at(chars@, q),
            state.global == chars@.take(i as int).contains('g'),
            state.ignore_case == chars@.take(i as int).contains('i'),
            state.multiline == chars@.take(i as int).contains('m'),
            state.dot_all == chars@.take(i as int).contains('s'),
            state.unicode == chars@.take(i as int).contains('u'),
            state.sticky == chars@.take(i as int).contains('y'),
        decreases chars.len() - i,
    {
        let flag = chars[i];
        let mut j: usize = 0;
        let mut seen = false;
        while j < i
            invariant
                j <= i < chars.len(),
                seen == chars@.take(j as int).contains(flag),
            decreases i - j,
        {
            if chars[j] == flag {
                seen = true;
            }
            proof {
                if !seen {
                    assert(chars@.take(j + 1) =~= chars@.take(j as int).push(chars@[j as int]));
                } else {
                    assert(chars@.take(j + 1)[j as int] == chars@[j as int]);
                    if chars@[j as int] != flag {
                        let w = choose|w: int|
                            0 <= w < j && chars@.take(j as int)[w] == flag;
                        assert(chars@.take(j + 1)[w] == flag);
                    }
                }
            }
            j += 1;
        }
        assert(chars@.take(i as int) =~= chars@.take(j as int));
        if seen {
            proof {
                assert(flag_rejected_at(chars@, i as int));
                assert(first_bad_flag(chars@) == Some(i as int)) by {
                    let p = first_bad_flag(chars@)->0;
                    if p < i {
                    } else if p > i {
                    }
                }
            }
            return Err(flag_error("SyntaxError: duplicate regular expression flag `", flag));
        }
        if flag == 'g' {
            state.global = true;
        } else if flag == 'i' {
            state.ignore_case = true;
        } else if flag == 'm' {
            state.multiline = true;
        } else if flag == 's' {
            state.dot_all = true;
        } else if flag == 'u' {
            state.unicode = true;
        } else if flag == 'y' {
            state.sticky = true;
        } else {
            proof {
                assert(flag_rejected_at(chars@, i as int));
                assert(first_bad_flag(chars@) == Some(i as int)) by {
                    let p = first_bad_flag(chars@)->0;
                    if p < i {
                    } else if p > i {
                    }
                }
            }
            return Err(flag_error("SyntaxError: unsupported regular expression flag `", flag));
        }
        proof {
            let t = chars@.take(i + 1);
            assert(t =~= chars@.take(i as int).push(flag));
            assert forall|c: char| #[trigger] t.contains(c) == (chars@.take(i as int).contains(c)
                || c == flag) by {
                if t.contains(c) {
                    let w = choose|w: int| 0 <= w < t.len() && t[w] == c;
                    if w < i {
                        assert(chars@.take(i as int)[w] == c);
                    }
                }
                if c == flag {
                    assert(t[i as int] == flag);
                }
                if chars@.take(i as int).contains(c) {
                    let w = choose|w: int| 0 <= w < i && chars@.take(i as int)[w] == c;
                    assert(t[w] == c);
                }
            }
        }
        i += 1;
    }
    assert(chars@.take(i as int) =~= chars@);
    Ok(state)
}

} // verus!
