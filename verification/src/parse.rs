//! From captured text to records: the text is cut into one block for each
//! interface, and the fields of a record are read out of its block.

use vstd::prelude::*;
use vstd::string::*;
use crate::network::{option_view, Network, NetworkView};
use crate::text::{
    contains, find_from, find_stop, first_occurrence, is_blank, is_blank_range,
    lemma_pieces_of_blank, lemma_split_at_first, lemma_stop_index_spec, occurs_at, prefix_before,
    split, to_chars,
};

verus! {

/// What separates two blocks: a blank line, that is two line breaks in a row.
pub open spec fn block_separator() -> Seq<char> {
    seq!['\n', '\n']
}

/// The test that a piece of text passes where it is not blank.
pub open spec fn not_blank() -> spec_fn(Seq<char>) -> bool {
    |piece: Seq<char>| !is_blank(piece)
}

/// The blocks of a captured text, in the order of the text: its pieces between
/// blank lines, without those that are blank themselves.
pub open spec fn blocks(text: Seq<char>) -> Seq<Seq<char>> {
    split(text, block_separator()).filter(not_blank())
}

/// The name of a block: what stands before its first colon, and the whole
/// block where it has no colon.
pub open spec fn name_of(block: Seq<char>) -> Seq<char> {
    prefix_before(block, set![':'])
}

/// A value: the characters of `rest` up to its first space or line break, or
/// all of them where it has neither.
pub open spec fn value_at_start(rest: Seq<char>) -> Seq<char> {
    prefix_before(rest, set![' ', '\n'])
}

/// The field that `marker` announces: the value that follows the first
/// occurrence of `marker` in `block`; unset where `marker` does not occur.
pub open spec fn field_of(block: Seq<char>, marker: Seq<char>) -> Option<Seq<char>> {
    match first_occurrence(block, marker) {
        Some(at) => Some(value_at_start(block.skip(at + marker.len()))),
        None => None,
    }
}

/// The record that a block describes. Each field is looked for on its own,
/// anywhere in the block.
pub open spec fn parsed(block: Seq<char>) -> NetworkView {
    NetworkView {
        name: name_of(block),
        inet: field_of(block, "inet "@),
        broadcast: field_of(block, "broadcast "@),
        netmask: field_of(block, "netmask "@),
        mac: field_of(block, "ether "@),
    }
}

/// The values of a sequence of strings, in the same order.
pub open spec fn texts(strings: Seq<String>) -> Seq<Seq<char>> {
    strings.map_values(|string: String| string@)
}

/// The name of a block that begins with a character other than a colon is not
/// empty.
pub proof fn lemma_name_not_empty(block: Seq<char>)
    requires
        block.len() > 0,
        block[0] != ':',
    ensures
        name_of(block).len() > 0,
{
    lemma_stop_index_spec(block, set![':']);
}

/// A block that holds none of the four markers gives a record with nothing
/// but a name.
pub proof fn lemma_block_without_markers(block: Seq<char>)
    requires
        !contains(block, "inet "@),
        !contains(block, "broadcast "@),
        !contains(block, "netmask "@),
        !contains(block, "ether "@),
    ensures
        parsed(block).inet is None,
        parsed(block).broadcast is None,
        parsed(block).netmask is None,
        parsed(block).mac is None,
{
}

/// A value holds neither a space nor a line break.
pub proof fn lemma_value_is_one_word(block: Seq<char>, marker: Seq<char>)
    ensures
        field_of(block, marker) matches Some(value) ==> forall|i: int|
            0 <= i < value.len() ==> #[trigger] value[i] != ' ' && value[i] != '\n',
{
    if let Some(at) = first_occurrence(block, marker) {
        lemma_stop_index_spec(block.skip(at + marker.len()), set![' ', '\n']);
    }
}

/// No block of a text is blank, so none is empty.
pub proof fn lemma_blocks_not_blank(text: Seq<char>)
    ensures
        forall|i: int|
            0 <= i < blocks(text).len() ==> !is_blank(#[trigger] blocks(text)[i]) && blocks(
                text,
            )[i].len() > 0,
{
    let pieces = split(text, block_separator());
    assert forall|i: int| 0 <= i < blocks(text).len() implies !is_blank(
        #[trigger] blocks(text)[i],
    ) && blocks(text)[i].len() > 0 by {
        pieces.lemma_filter_pred(not_blank(), i);
    }
}

/// A blank text has no block.
pub proof fn lemma_blank_text_has_no_block(text: Seq<char>)
    requires
        is_blank(text),
    ensures
        blocks(text) == Seq::<Seq<char>>::empty(),
{
    let pieces = split(text, block_separator());
    let keep = not_blank();
    lemma_pieces_of_blank(text, block_separator());
    assert(pieces.all(|piece: Seq<char>| !keep(piece)));
    pieces.lemma_all_neg_filter_empty(keep);
    assert(blocks(text) =~= Seq::<Seq<char>>::empty());
}

/// Two blocks with a blank line between them are the two blocks of the text,
/// in this order: where neither is blank, neither holds a blank line, and
/// the first does not end in a line break.
pub proof fn lemma_two_blocks(first: Seq<char>, second: Seq<char>)
    requires
        !is_blank(first),
        !is_blank(second),
        !contains(first, block_separator()),
        !contains(second, block_separator()),
        first.last() != '\n',
    ensures
        blocks(first + block_separator() + second) == seq![first, second],
{
    let sep = block_separator();
    let text = first + sep + second;
    let at = first.len() as int;
    assert(text.subrange(at, at + 2) =~= sep);
    assert forall|earlier: int| 0 <= earlier < at implies !occurs_at(text, sep, earlier) by {
        if earlier + 2 <= at {
            assert(!occurs_at(first, sep, earlier));
            assert(text.subrange(earlier, earlier + 2) =~= first.subrange(earlier, earlier + 2));
        } else {
            assert(text.subrange(earlier, earlier + 2)[0] == first.last());
        }
    }
    lemma_split_at_first(text, sep, at);
    assert(text.take(at) =~= first);
    assert(text.skip(at + 2) =~= second);
    assert(split(text, sep) =~= seq![first].push(second));
    seq![first].lemma_filter_push(second, not_blank());
    Seq::<Seq<char>>::empty().lemma_filter_push(first, not_blank());
    Seq::<Seq<char>>::empty().lemma_filter_len(not_blank());
    assert(Seq::<Seq<char>>::empty().push(first) =~= seq![first]);
    assert(blocks(text) =~= seq![first, second]);
}

/// The characters of `line` from `from` up to `to`, as a string of its own.
fn copy_range(line: &str, from: usize, to: usize) -> (part: String)
    requires
        from <= to <= line@.len(),
    ensures
        part@ == line@.subrange(from as int, to as int),
{
    line.substring_char(from, to).to_owned()
}

/// Reads the field that `marker` announces out of `line`, whose characters are
/// `chars`.
fn read_field(line: &str, chars: &[char], marker: &str) -> (value: Option<String>)
    requires
        chars@ == line@,
    ensures
        option_view(value) == field_of(line@, marker@),
{
    let marker_chars = to_chars(marker);
    match find_from(chars, &marker_chars, 0) {
        Some(at) => {
            let start = at + marker_chars.len();
            let end = find_stop(chars, start, ' ', '\n');
            assert(chars@.skip(0) =~= chars@);
            assert(chars@.subrange(start as int, end as int) =~= chars@.skip(start as int).take(
                end - start,
            ));
            Some(copy_range(line, start, end))
        },
        None => {
            assert(chars@.skip(0) =~= chars@);
            None
        },
    }
}

/// Parses the block of one interface into its record.
///
/// The name is what stands before the first colon. Each of the four other
/// fields is the value after its marker (`inet `, `broadcast `, `netmask `,
/// `ether `), up to the next space or line break, and unset where the block
/// does not hold the marker. A marker counts wherever it stands, at the end of
/// a longer word too. Nothing is rejected and no value is validated.
pub fn parse_network(line: &str) -> (network: Network)
    ensures
        network@ == parsed(line@),
{
    let chars = to_chars(line);
    let name_end = find_stop(&chars, 0, ':', ':');
    proof {
        assert(chars@.skip(0) =~= chars@);
        assert(set![':', ':'] =~= set![':']);
        assert(chars@.subrange(0, name_end as int) =~= chars@.take(name_end as int));
    }
    Network {
        name: copy_range(line, 0, name_end),
        inet: read_field(line, &chars, "inet "),
        broadcast: read_field(line, &chars, "broadcast "),
        netmask: read_field(line, &chars, "netmask "),
        mac: read_field(line, &chars, "ether "),
    }
}

/// Cuts a captured text into the blocks of its interfaces.
///
/// The text is cut at every blank line; pieces that hold nothing but
/// whitespace are dropped, the others come in the order of the text.
pub fn split_blocks(text: &str) -> (found: Vec<String>)
    ensures
        texts(found@) == blocks(text@),
{
    let chars = to_chars(text);
    let separator: Vec<char> = vec!['\n', '\n'];
    let mut found: Vec<String> = Vec::new();
    let mut from: usize = 0;
    let ghost mut pieces: Seq<Seq<char>> = Seq::empty();
    proof {
        assert(separator@ =~= block_separator());
        assert(text@.skip(0) =~= text@);
        assert(pieces + split(text@, separator@) =~= split(text@, separator@));
        pieces.lemma_filter_len(not_blank());
        assert(texts(found@) =~= pieces.filter(not_blank()));
    }
    loop
        invariant
            from <= chars.len(),
            chars@ == text@,
            separator@ == block_separator(),
            split(text@, separator@) == pieces + split(text@.skip(from as int), separator@),
            texts(found@) == pieces.filter(not_blank()),
        decreases chars.len() - from,
    {
        let ghost rest = text@.skip(from as int);
        let next = find_from(&chars, &separator, from);
        let end = match next {
            Some(at) => at,
            None => chars.len(),
        };
        let ghost piece = text@.subrange(from as int, end as int);
        if !is_blank_range(&chars, from, end) {
            let ghost before = found@;
            found.push(copy_range(text, from, end));
            assert(texts(found@) =~= texts(before).push(piece));
        }
        proof {
            pieces.lemma_filter_push(piece, not_blank());
            assert(texts(found@) == pieces.push(piece).filter(not_blank()));
        }
        match next {
            Some(at) => {
                proof {
                    assert(rest.take(at - from) =~= piece);
                    assert(rest.skip(at - from + 2) =~= text@.skip(at + 2));
                    assert(pieces + (seq![piece] + split(text@.skip(at + 2), separator@))
                        =~= pieces.push(piece) + split(text@.skip(at + 2), separator@));
                    pieces = pieces.push(piece);
                }
                from = at + 2;
            },
            None => {
                proof {
                    assert(rest =~= piece);
                    assert(pieces + seq![piece] =~= pieces.push(piece));
                }
                return found;
            },
        }
    }
}

} // verus!
