//! Searching in character sequences.
//!
//! Strings are modelled by their view, a `Seq<char>`. The spec functions of this
//! module say where a fragment stands in a text, where a text is cut, and which
//! texts are blank; the executable functions compute the same on slices of
//! `char`.

use vstd::prelude::*;

verus! {

/// `needle` stands in `hay` at index `at`.
pub open spec fn occurs_at(hay: Seq<char>, needle: Seq<char>, at: int) -> bool {
    &&& 0 <= at
    &&& at + needle.len() <= hay.len()
    &&& hay.subrange(at, at + needle.len()) == needle
}

/// `needle` stands somewhere in `hay`. The empty fragment stands in every text.
pub open spec fn contains(hay: Seq<char>, needle: Seq<char>) -> bool {
    exists|at: int| occurs_at(hay, needle, at)
}

/// `needle` stands in `hay` at `at`, and nowhere before.
pub open spec fn is_first_occurrence(hay: Seq<char>, needle: Seq<char>, at: int) -> bool {
    &&& occurs_at(hay, needle, at)
    &&& forall|earlier: int| 0 <= earlier < at ==> !occurs_at(hay, needle, earlier)
}

/// The least index at which `needle` stands in `hay`, if it stands there at all.
pub open spec fn first_occurrence(hay: Seq<char>, needle: Seq<char>) -> Option<int> {
    if contains(hay, needle) {
        Some(choose|at: int| is_first_occurrence(hay, needle, at))
    } else {
        None
    }
}

/// `n` is the index of the first character of `s` that belongs to `stops`, or
/// the length of `s` if none does.
pub open spec fn is_stop_index(s: Seq<char>, stops: Set<char>, n: int) -> bool {
    &&& 0 <= n <= s.len()
    &&& forall|i: int| 0 <= i < n ==> !stops.contains(#[trigger] s[i])
    &&& n < s.len() ==> stops.contains(s[n])
}

/// The index of the first character of `s` that belongs to `stops`, or the
/// length of `s` if none does.
pub open spec fn stop_index(s: Seq<char>, stops: Set<char>) -> int {
    choose|n: int| is_stop_index(s, stops, n)
}

/// The longest prefix of `s` in which no character of `stops` occurs.
pub open spec fn prefix_before(s: Seq<char>, stops: Set<char>) -> Seq<char> {
    s.take(stop_index(s, stops))
}

/// The characters with the Unicode property `White_Space`.
pub open spec fn is_whitespace(c: char) -> bool {
    let code = c as u32;
    ||| 0x09 <= code <= 0x0D
    ||| code == 0x20
    ||| code == 0x85
    ||| code == 0xA0
    ||| code == 0x1680
    ||| 0x2000 <= code <= 0x200A
    ||| code == 0x2028
    ||| code == 0x2029
    ||| code == 0x202F
    ||| code == 0x205F
    ||| code == 0x3000
}

/// Nothing is left of `s` once the whitespace at both ends is trimmed away:
/// every character of `s` is whitespace.
pub open spec fn is_blank(s: Seq<char>) -> bool {
    forall|i: int| 0 <= i < s.len() ==> is_whitespace(#[trigger] s[i])
}

/// The pieces of `text` between the occurrences of `sep`, taken from the left
/// and without overlap. A text in which `sep` does not stand is its own single
/// piece, and so is every text where `sep` is empty.
pub open spec fn split(text: Seq<char>, sep: Seq<char>) -> Seq<Seq<char>>
    decreases text.len(),
{
    match first_occurrence(text, sep) {
        Some(at) if sep.len() > 0 => {
            proof {
                lemma_first_occurrence_spec(text, sep);
            }
            seq![text.take(at)] + split(text.skip(at + sep.len()), sep)
        },
        _ => seq![text],
    }
}

/// The lines of `text`: its pieces between line breaks.
pub open spec fn lines(text: Seq<char>) -> Seq<Seq<char>> {
    split(text, seq!['\n'])
}

/// No line break stands in `text`.
pub open spec fn is_single_line(text: Seq<char>) -> bool {
    forall|i: int| 0 <= i < text.len() ==> #[trigger] text[i] != '\n'
}

proof fn lemma_least_occurrence(hay: Seq<char>, needle: Seq<char>, at: int)
    requires
        occurs_at(hay, needle, at),
    ensures
        exists|first: int| is_first_occurrence(hay, needle, first),
    decreases at,
{
    if exists|earlier: int| 0 <= earlier < at && occurs_at(hay, needle, earlier) {
        let earlier = choose|earlier: int| 0 <= earlier < at && occurs_at(hay, needle, earlier);
        lemma_least_occurrence(hay, needle, earlier);
    } else {
        assert(is_first_occurrence(hay, needle, at));
    }
}

/// What `first_occurrence` returns is the first occurrence; it returns nothing
/// only where there is none.
pub proof fn lemma_first_occurrence_spec(hay: Seq<char>, needle: Seq<char>)
    ensures
        match first_occurrence(hay, needle) {
            Some(at) => is_first_occurrence(hay, needle, at),
            None => !contains(hay, needle),
        },
{
    if contains(hay, needle) {
        let at = choose|at: int| occurs_at(hay, needle, at);
        lemma_least_occurrence(hay, needle, at);
    }
}

/// There is one first occurrence at most.
pub proof fn lemma_first_occurrence_unique(hay: Seq<char>, needle: Seq<char>, at: int)
    requires
        is_first_occurrence(hay, needle, at),
    ensures
        first_occurrence(hay, needle) == Some(at),
{
    lemma_first_occurrence_spec(hay, needle);
    let chosen = first_occurrence(hay, needle).unwrap();
    if chosen < at {
        assert(!occurs_at(hay, needle, chosen));
    } else if at < chosen {
        assert(!occurs_at(hay, needle, at));
    }
}

/// An occurrence in the rest of a text is an occurrence in the text, shifted.
pub proof fn lemma_occurs_at_skip(hay: Seq<char>, needle: Seq<char>, from: int, at: int)
    requires
        0 <= from <= hay.len(),
        from <= at,
    ensures
        occurs_at(hay.skip(from), needle, at - from) == occurs_at(hay, needle, at),
{
    if at + needle.len() <= hay.len() {
        assert(hay.skip(from).subrange(at - from, at - from + needle.len()) =~= hay.subrange(
            at,
            at + needle.len(),
        ));
    }
}

/// A text is cut at the first occurrence of the separator: the piece before it
/// comes first, the pieces of what follows it come after.
pub proof fn lemma_split_at_first(text: Seq<char>, sep: Seq<char>, at: int)
    requires
        sep.len() > 0,
        is_first_occurrence(text, sep, at),
    ensures
        split(text, sep) == seq![text.take(at)] + split(text.skip(at + sep.len()), sep),
{
    lemma_first_occurrence_unique(text, sep, at);
}

/// Every piece of a blank text is blank.
pub proof fn lemma_pieces_of_blank(text: Seq<char>, sep: Seq<char>)
    requires
        is_blank(text),
    ensures
        forall|i: int| 0 <= i < split(text, sep).len() ==> is_blank(#[trigger] split(text, sep)[i]),
    decreases text.len(),
{
    lemma_first_occurrence_spec(text, sep);
    if let Some(at) = first_occurrence(text, sep) {
        if sep.len() > 0 {
            let piece = text.take(at);
            let rest = text.skip(at + sep.len());
            assert forall|i: int| 0 <= i < piece.len() implies is_whitespace(
                #[trigger] piece[i],
            ) by {
                assert(piece[i] == text[i]);
            }
            assert forall|i: int| 0 <= i < rest.len() implies is_whitespace(#[trigger] rest[i]) by {
                assert(rest[i] == text[at + sep.len() + i]);
            }
            lemma_pieces_of_blank(rest, sep);
            assert forall|i: int| 0 <= i < split(text, sep).len() implies is_blank(
                #[trigger] split(text, sep)[i],
            ) by {
                if i > 0 {
                    assert(split(text, sep)[i] == split(rest, sep)[i - 1]);
                }
            }
        }
    }
}

/// A text that begins with a single line and a line break: the line is its
/// first line, and the lines of the rest follow.
pub proof fn lemma_lines_after_first(first: Seq<char>, rest: Seq<char>)
    requires
        is_single_line(first),
    ensures
        lines(first + seq!['\n'] + rest) == seq![first] + lines(rest),
{
    let text = first + seq!['\n'] + rest;
    let sep = seq!['\n'];
    let at = first.len() as int;
    assert(text.subrange(at, at + 1) =~= sep);
    assert forall|earlier: int| 0 <= earlier < at implies !occurs_at(text, sep, earlier) by {
        assert(text.subrange(earlier, earlier + 1)[0] == first[earlier]);
    }
    lemma_split_at_first(text, sep, at);
    assert(text.take(at) =~= first);
    assert(text.skip(at + 1) =~= rest);
}

/// A single line is the only line of itself.
pub proof fn lemma_lines_of_single(line: Seq<char>)
    requires
        is_single_line(line),
    ensures
        lines(line) == seq![line],
{
    let sep = seq!['\n'];
    assert forall|at: int| !occurs_at(line, sep, at) by {
        if 0 <= at && at + 1 <= line.len() {
            assert(line.subrange(at, at + 1)[0] == line[at]);
        }
    }
}

proof fn lemma_stop_index_exists(s: Seq<char>, stops: Set<char>, clear: int)
    requires
        0 <= clear <= s.len(),
        forall|i: int| 0 <= i < clear ==> !stops.contains(#[trigger] s[i]),
    ensures
        exists|n: int| is_stop_index(s, stops, n),
    decreases s.len() - clear,
{
    if clear < s.len() && !stops.contains(s[clear]) {
        lemma_stop_index_exists(s, stops, clear + 1);
    } else {
        assert(is_stop_index(s, stops, clear));
    }
}

/// `stop_index` is the stop index.
pub proof fn lemma_stop_index_spec(s: Seq<char>, stops: Set<char>)
    ensures
        is_stop_index(s, stops, stop_index(s, stops)),
{
    lemma_stop_index_exists(s, stops, 0);
}

/// There is one stop index only.
pub proof fn lemma_stop_index_unique(s: Seq<char>, stops: Set<char>, n: int)
    requires
        is_stop_index(s, stops, n),
    ensures
        stop_index(s, stops) == n,
{
    lemma_stop_index_spec(s, stops);
    let chosen = stop_index(s, stops);
    if chosen < n {
        assert(!stops.contains(s[chosen]));
    } else if n < chosen {
        assert(!stops.contains(s[n]));
    }
}

/// The characters of a string, one by one.
pub fn to_chars(s: &str) -> (chars: Vec<char>)
    ensures
        chars@ == s@,
{
    let mut chars: Vec<char> = Vec::new();
    for c in it: s.chars()
        invariant
            it.seq() == s@,
            chars@ == it.seq().take(it.index()),
    {
        chars.push(c);
    }
    chars
}

/// Whether `needle` stands in `hay` at index `at`.
pub fn matches_at(hay: &[char], needle: &[char], at: usize) -> (found: bool)
    ensures
        found == occurs_at(hay@, needle@, at as int),
{
    if needle.len() > hay.len() || at > hay.len() - needle.len() {
        return false;
    }
    let mut k: usize = 0;
    while k < needle.len()
        invariant
            k <= needle.len(),
            at + needle.len() <= hay.len(),
            forall|j: int| 0 <= j < k ==> hay@[at + j] == needle@[j],
        decreases needle.len() - k,
    {
        if hay[at + k] != needle[k] {
            assert(hay@.subrange(at as int, at + needle.len())[k as int] == hay@[at + k]);
            return false;
        }
        k += 1;
    }
    assert(hay@.subrange(at as int, at + needle.len()) =~= needle@);
    true
}

/// The first index at or after `from` at which `needle` stands in `hay`.
pub fn find_from(hay: &[char], needle: &[char], from: usize) -> (found: Option<usize>)
    requires
        from <= hay.len(),
    ensures
        found matches Some(at) ==> from <= at && at + needle.len() <= hay.len(),
        first_occurrence(hay@.skip(from as int), needle@) == match found {
            Some(at) => Some(at - from),
            None => None,
        },
{
    let ghost rest = hay@.skip(from as int);
    let mut at: usize = from;
    while at < hay.len()
        invariant
            from <= at <= hay.len(),
            rest == hay@.skip(from as int),
            forall|earlier: int| 0 <= earlier < at - from ==> !occurs_at(rest, needle@, earlier),
        decreases hay.len() - at,
    {
        proof {
            lemma_occurs_at_skip(hay@, needle@, from as int, at as int);
        }
        if matches_at(hay, needle, at) {
            proof {
                lemma_first_occurrence_unique(rest, needle@, at - from);
            }
            return Some(at);
        }
        at += 1;
    }
    proof {
        lemma_occurs_at_skip(hay@, needle@, from as int, at as int);
    }
    if matches_at(hay, needle, at) {
        proof {
            lemma_first_occurrence_unique(rest, needle@, at - from);
        }
        Some(at)
    } else {
        None
    }
}

/// The first index at or after `from` whose character is `stop_a` or `stop_b`;
/// the length of `s` if there is none.
pub fn find_stop(s: &[char], from: usize, stop_a: char, stop_b: char) -> (end: usize)
    requires
        from <= s.len(),
    ensures
        from <= end <= s.len(),
        end - from == stop_index(s@.skip(from as int), set![stop_a, stop_b]),
{
    let ghost rest = s@.skip(from as int);
    let ghost stops = set![stop_a, stop_b];
    let mut end: usize = from;
    while end < s.len() && s[end] != stop_a && s[end] != stop_b
        invariant
            from <= end <= s.len(),
            rest == s@.skip(from as int),
            stops == set![stop_a, stop_b],
            forall|i: int| 0 <= i < end - from ==> !stops.contains(#[trigger] rest[i]),
        decreases s.len() - end,
    {
        assert(rest[end - from] == s@[end as int]);
        end += 1;
    }
    proof {
        if end < s.len() {
            assert(rest[end - from] == s@[end as int]);
        }
        lemma_stop_index_unique(rest, stops, end - from);
    }
    end
}

/// Whether `c` is whitespace.
pub fn is_whitespace_char(c: char) -> (white: bool)
    ensures
        white == is_whitespace(c),
{
    let code: u32 = c as u32;
    (0x09 <= code && code <= 0x0D) || code == 0x20 || code == 0x85 || code == 0xA0 || code
        == 0x1680 || (0x2000 <= code && code <= 0x200A) || code == 0x2028 || code == 0x2029 || code
        == 0x202F || code == 0x205F || code == 0x3000
}

/// Whether every character of `s` from `from` up to `to` is whitespace.
pub fn is_blank_range(s: &[char], from: usize, to: usize) -> (blank: bool)
    requires
        from <= to <= s.len(),
    ensures
        blank == is_blank(s@.subrange(from as int, to as int)),
{
    let ghost part = s@.subrange(from as int, to as int);
    let mut i: usize = from;
    while i < to
        invariant
            from <= i <= to <= s.len(),
            part == s@.subrange(from as int, to as int),
            forall|j: int| 0 <= j < i - from ==> is_whitespace(#[trigger] part[j]),
        decreases to - i,
    {
        if !is_whitespace_char(s[i]) {
            assert(part[i - from] == s@[i as int]);
            return false;
        }
        assert(part[i - from] == s@[i as int]);
        i += 1;
    }
    true
}

} // verus!
