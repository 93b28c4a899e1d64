//! Questions about the interfaces of a captured text: all of them, the first
//! with a given name, the wireless and the wired ones.

use vstd::prelude::*;
use crate::network::{views, Network, NetworkView};
use crate::parse::{
    block_separator, blocks, lemma_blank_text_has_no_block, lemma_blocks_not_blank,
    lemma_name_not_empty, lemma_two_blocks, parse_network, parsed, split_blocks, texts,
};
use crate::text::{contains, find_from, is_blank, occurs_at, to_chars};

verus! {

/// The records of a captured text: one for each of its blocks, in the order of
/// the text.
pub open spec fn records(text: Seq<char>) -> Seq<NetworkView> {
    blocks(text).map_values(|block: Seq<char>| parsed(block))
}

/// A captured text is well formed where each of its blocks begins with a
/// name, that is with a character other than a colon.
pub open spec fn is_well_formed(text: Seq<char>) -> bool {
    forall|i: int| 0 <= i < blocks(text).len() ==> (#[trigger] blocks(text)[i])[0] != ':'
}

/// The test that a record passes where `fragment` stands in its name.
pub open spec fn named_like(fragment: Seq<char>) -> spec_fn(NetworkView) -> bool {
    |network: NetworkView| contains(network.name, fragment)
}

/// The first of `networks` in whose name `fragment` stands.
pub open spec fn first_named_like(networks: Seq<NetworkView>, fragment: Seq<char>) -> Option<
    NetworkView,
> {
    let hits = networks.filter(named_like(fragment));
    if hits.len() > 0 {
        Some(hits[0])
    } else {
        None
    }
}

/// A record is listed for two marks where one of the marks stands in its name
/// and its address is set; where a fragment is asked for as well, that
/// fragment stands in its name too.
pub open spec fn is_listed_for(
    network: NetworkView,
    mark: Seq<char>,
    other_mark: Seq<char>,
    fragment: Option<Seq<char>>,
) -> bool {
    &&& contains(network.name, mark) || contains(network.name, other_mark)
    &&& network.inet is Some
    &&& fragment matches Some(wanted) ==> contains(network.name, wanted)
}

/// The test of `is_listed_for`, for given marks and fragment.
pub open spec fn listed_for(mark: Seq<char>, other_mark: Seq<char>, fragment: Option<Seq<char>>)
    -> spec_fn(NetworkView) -> bool {
    |network: NetworkView| is_listed_for(network, mark, other_mark, fragment)
}

/// Those of `networks` that are wireless: `wlan` or `wlp` stands in the name.
pub open spec fn wireless(networks: Seq<NetworkView>, fragment: Option<Seq<char>>) -> Seq<
    NetworkView,
> {
    networks.filter(listed_for("wlan"@, "wlp"@, fragment))
}

/// Those of `networks` that are wired: `eth` or `enp` stands in the name.
pub open spec fn wired(networks: Seq<NetworkView>, fragment: Option<Seq<char>>) -> Seq<
    NetworkView,
> {
    networks.filter(listed_for("eth"@, "enp"@, fragment))
}

/// The value of an optional record.
pub open spec fn found_view(found: Option<Network>) -> Option<NetworkView> {
    match found {
        Some(network) => Some(network@),
        None => None,
    }
}

/// The value of an optional fragment.
pub open spec fn fragment_view(fragment: Option<&str>) -> Option<Seq<char>> {
    match fragment {
        Some(text) => Some(text@),
        None => None,
    }
}

/// Whether `fragment` stands in the text whose characters are `chars`.
fn holds(chars: &[char], fragment: &str) -> (found: bool)
    ensures
        found == contains(chars@, fragment@),
{
    let wanted = to_chars(fragment);
    assert(chars@.skip(0) =~= chars@);
    find_from(chars, &wanted, 0).is_some()
}

/// Whether `network` is listed for the marks `mark` and `other_mark` and for
/// `fragment`.
fn passes(network: &Network, mark: &str, other_mark: &str, fragment: Option<&str>) -> (kept: bool)
    ensures
        kept == is_listed_for(network@, mark@, other_mark@, fragment_view(fragment)),
{
    if network.inet.is_none() {
        return false;
    }
    let name = to_chars(network.name.as_str());
    if !holds(&name, mark) && !holds(&name, other_mark) {
        return false;
    }
    match fragment {
        Some(wanted) => holds(&name, wanted),
        None => true,
    }
}

/// The interfaces of `text` that are listed for the marks `mark` and
/// `other_mark` and for `fragment`, in the order of the text.
fn select(text: &str, mark: &str, other_mark: &str, fragment: Option<&str>) -> (found: Vec<Network>)
    ensures
        views(found@) == records(text@).filter(
            listed_for(mark@, other_mark@, fragment_view(fragment)),
        ),
{
    let networks = get_networks(text);
    let ghost all = views(networks@);
    let ghost keep = listed_for(mark@, other_mark@, fragment_view(fragment));
    let mut found: Vec<Network> = Vec::new();
    proof {
        all.take(0).lemma_filter_len(keep);
        assert(views(found@) =~= all.take(0).filter(keep));
    }
    for i in 0..networks.len()
        invariant
            all == views(networks@),
            keep == listed_for(mark@, other_mark@, fragment_view(fragment)),
            views(found@) == all.take(i as int).filter(keep),
    {
        let ghost before = found@;
        if passes(&networks[i], mark, other_mark, fragment) {
            found.push(networks[i].clone());
            assert(views(found@) =~= views(before).push(all[i as int]));
        }
        proof {
            all.take(i as int).lemma_filter_push(all[i as int], keep);
            assert(all.take(i + 1) =~= all.take(i as int).push(all[i as int]));
        }
    }
    assert(all.take(networks.len() as int) =~= all);
    found
}

/// All interfaces of a captured text, in the order of the text.
///
/// The text is cut into blocks at blank lines, blank blocks are dropped, and
/// each block that is left is parsed into its record.
pub fn get_networks(text: &str) -> (networks: Vec<Network>)
    ensures
        views(networks@) == records(text@),
{
    let found = split_blocks(text);
    let ghost all = blocks(text@);
    let ghost parse = |block: Seq<char>| parsed(block);
    let mut networks: Vec<Network> = Vec::new();
    assert(views(networks@) =~= all.take(0).map_values(parse));
    for i in 0..found.len()
        invariant
            all == texts(found@),
            all == blocks(text@),
            parse == |block: Seq<char>| parsed(block),
            views(networks@) == all.take(i as int).map_values(parse),
    {
        let ghost before = networks@;
        networks.push(parse_network(found[i].as_str()));
        assert(views(networks@) =~= views(before).push(parsed(all[i as int])));
        assert(all.take(i + 1).map_values(parse) =~= all.take(i as int).map_values(parse).push(
            parsed(all[i as int]),
        ));
    }
    assert(all.take(found.len() as int) =~= all);
    networks
}

/// The first interface of a captured text in whose name `name` stands; none
/// where it stands in no name. The empty fragment stands in every name.
pub fn find_network(text: &str, name: &str) -> (found: Option<Network>)
    ensures
        found_view(found) == first_named_like(records(text@), name@),
{
    let networks = get_networks(text);
    let ghost all = views(networks@);
    let ghost keep = named_like(name@);
    for i in 0..networks.len()
        invariant
            all == views(networks@),
            all == records(text@),
            keep == named_like(name@),
            forall|j: int| 0 <= j < i ==> !keep(#[trigger] all[j]),
    {
        let chars = to_chars(networks[i].name.as_str());
        if holds(&chars, name) {
            proof {
                lemma_first_kept(all, keep, i as int);
            }
            return Some(networks[i].clone());
        }
    }
    proof {
        assert(all.all(|network: NetworkView| !keep(network)));
        all.lemma_all_neg_filter_empty(keep);
    }
    None
}

/// The wireless interfaces of a captured text that have an address, in the
/// order of the text: those with `wlan` or `wlp` in the name. Where
/// `identifier` is given, only those with that fragment in the name as well.
pub fn get_wlan(text: &str, identifier: Option<&str>) -> (found: Vec<Network>)
    ensures
        views(found@) == wireless(records(text@), fragment_view(identifier)),
{
    select(text, "wlan", "wlp", identifier)
}

/// The wired interfaces of a captured text that have an address, in the order
/// of the text: those with `eth` or `enp` in the name. Where `identifier` is
/// given, only those with that fragment in the name as well.
pub fn get_ethernet(text: &str, identifier: Option<&str>) -> (found: Vec<Network>)
    ensures
        views(found@) == wired(records(text@), fragment_view(identifier)),
{
    select(text, "eth", "enp", identifier)
}

/// Where `keep` holds of `s[at]` and of nothing before it, `s[at]` is the
/// first of what the filter keeps.
proof fn lemma_first_kept<A>(s: Seq<A>, keep: spec_fn(A) -> bool, at: int)
    requires
        0 <= at < s.len(),
        keep(s[at]),
        forall|j: int| 0 <= j < at ==> !keep(#[trigger] s[j]),
    ensures
        s.filter(keep).len() > 0,
        s.filter(keep)[0] == s[at],
{
    let head = s.take(at);
    let tail = s.skip(at + 1);
    assert(s =~= head + (seq![s[at]] + tail));
    assert(head.all(|x: A| !keep(x)));
    head.lemma_all_neg_filter_empty(keep);
    tail.lemma_filter_prepend(s[at], keep);
    Seq::filter_distributes_over_add(head, seq![s[at]] + tail, keep);
}

/// No record of a well-formed text has an empty name.
pub proof fn lemma_names_not_empty(text: Seq<char>)
    requires
        is_well_formed(text),
    ensures
        forall|i: int| 0 <= i < records(text).len() ==> (#[trigger] records(text)[i]).name.len() > 0,
{
    lemma_blocks_not_blank(text);
    assert forall|i: int| 0 <= i < records(text).len() implies (#[trigger] records(
        text,
    )[i]).name.len() > 0 by {
        lemma_name_not_empty(blocks(text)[i]);
    }
}

/// A blank text has no record: nothing is listed for it and nothing found.
pub proof fn lemma_blank_text_has_no_record(text: Seq<char>)
    requires
        is_blank(text),
    ensures
        records(text) == Seq::<NetworkView>::empty(),
{
    lemma_blank_text_has_no_block(text);
    assert(records(text) =~= Seq::<NetworkView>::empty());
}

/// Two blocks with a blank line between them give two records, in the order
/// of the blocks: where neither is blank, neither holds a blank line, and the
/// first does not end in a line break.
pub proof fn lemma_two_records(first: Seq<char>, second: Seq<char>)
    requires
        !is_blank(first),
        !is_blank(second),
        !contains(first, block_separator()),
        !contains(second, block_separator()),
        first.last() != '\n',
    ensures
        records(first + block_separator() + second) == seq![parsed(first), parsed(second)],
{
    lemma_two_blocks(first, second);
    assert(records(first + block_separator() + second) =~= seq![parsed(first), parsed(second)]);
}

/// Where `keep` holds of some element up to `s[upto]`, it holds of a first
/// one.
proof fn lemma_least_kept<A>(s: Seq<A>, keep: spec_fn(A) -> bool, upto: int)
    requires
        0 <= upto < s.len(),
        keep(s[upto]),
    ensures
        exists|at: int|
            0 <= at <= upto && keep(#[trigger] s[at]) && forall|j: int|
                0 <= j < at ==> !keep(#[trigger] s[j]),
    decreases upto,
{
    if exists|j: int| 0 <= j < upto && keep(#[trigger] s[j]) {
        let j = choose|j: int| 0 <= j < upto && keep(#[trigger] s[j]);
        lemma_least_kept(s, keep, j);
    }
}

/// What is found for a fragment is a record of the text with the fragment in
/// its name, and no record before it has the fragment in its name. Nothing is
/// found only where no record has it.
pub proof fn lemma_found_is_first(text: Seq<char>, fragment: Seq<char>)
    ensures
        match first_named_like(records(text), fragment) {
            Some(network) => exists|at: int|
                0 <= at < records(text).len() && #[trigger] records(text)[at] == network
                    && contains(network.name, fragment) && forall|j: int|
                    0 <= j < at ==> !contains((#[trigger] records(text)[j]).name, fragment),
            None => forall|j: int|
                0 <= j < records(text).len() ==> !contains(
                    (#[trigger] records(text)[j]).name,
                    fragment,
                ),
        },
{
    let all = records(text);
    let keep = named_like(fragment);
    lemma_absent_fragment_finds_nothing(text, fragment);
    if let Some(network) = first_named_like(all, fragment) {
        let upto = choose|i: int| 0 <= i < all.len() && contains((#[trigger] all[i]).name, fragment);
        lemma_least_kept(all, keep, upto);
        let at = choose|at: int|
            0 <= at <= upto && keep(#[trigger] all[at]) && forall|j: int|
                0 <= j < at ==> !keep(#[trigger] all[j]);
        lemma_first_kept(all, keep, at);
        assert(all[at] == network);
    }
}

/// Looking for the empty fragment finds the first record of the text: it
/// stands in every name. It finds nothing only where the text has no record.
pub proof fn lemma_empty_fragment_finds_first(text: Seq<char>, fragment: Seq<char>)
    requires
        fragment.len() == 0,
    ensures
        first_named_like(records(text), fragment) == if records(text).len() > 0 {
            Some(records(text)[0])
        } else {
            None
        },
{
    let all = records(text);
    if all.len() > 0 {
        assert(all[0].name.subrange(0, 0) =~= fragment);
        assert(occurs_at(all[0].name, fragment, 0));
        lemma_first_kept(all, named_like(fragment), 0);
    } else {
        all.lemma_filter_len(named_like(fragment));
    }
}

/// Looking for a fragment finds nothing exactly where it stands in no name of
/// the text.
pub proof fn lemma_absent_fragment_finds_nothing(text: Seq<char>, fragment: Seq<char>)
    ensures
        first_named_like(records(text), fragment) is None <==> forall|i: int|
            0 <= i < records(text).len() ==> !contains(
                (#[trigger] records(text)[i]).name,
                fragment,
            ),
{
    let all = records(text);
    let keep = named_like(fragment);
    if forall|i: int| 0 <= i < all.len() ==> !contains((#[trigger] all[i]).name, fragment) {
        assert(all.all(|network: NetworkView| !keep(network)));
        all.lemma_all_neg_filter_empty(keep);
    } else {
        let i = choose|i: int| 0 <= i < all.len() && contains((#[trigger] all[i]).name, fragment);
        all.lemma_filter_contains(keep, i);
    }
}

/// What is listed for two marks is a record of the text for which it is
/// listed, and every such record of the text is listed.
proof fn lemma_listed_are_records(
    text: Seq<char>,
    mark: Seq<char>,
    other_mark: Seq<char>,
    fragment: Option<Seq<char>>,
)
    ensures
        forall|i: int|
            0 <= i < records(text).filter(listed_for(mark, other_mark, fragment)).len() ==> {
                let network = #[trigger] records(text).filter(
                    listed_for(mark, other_mark, fragment),
                )[i];
                &&& records(text).contains(network)
                &&& is_listed_for(network, mark, other_mark, fragment)
            },
        forall|i: int|
            0 <= i < records(text).len() && is_listed_for(
                #[trigger] records(text)[i],
                mark,
                other_mark,
                fragment,
            ) ==> records(text).filter(listed_for(mark, other_mark, fragment)).contains(
                records(text)[i],
            ),
{
    let all = records(text);
    let keep = listed_for(mark, other_mark, fragment);
    assert forall|i: int| 0 <= i < all.filter(keep).len() implies {
        let network = #[trigger] all.filter(keep)[i];
        &&& all.contains(network)
        &&& is_listed_for(network, mark, other_mark, fragment)
    } by {
        all.lemma_filter_pred(keep, i);
        all.lemma_filter_contains_rev(keep, all.filter(keep)[i]);
    }
    assert forall|i: int|
        0 <= i < all.len() && is_listed_for(
            #[trigger] all[i],
            mark,
            other_mark,
            fragment,
        ) implies all.filter(keep).contains(all[i]) by {
        all.lemma_filter_contains(keep, i);
    }
}

/// Every wireless interface that is listed for a text is one of the records
/// of the text, has `wlan` or `wlp` in its name and has its address set; where
/// a fragment was asked for, that stands in its name too. No such record of
/// the text is missing from the list.
pub proof fn lemma_wireless_are_listed(text: Seq<char>, fragment: Option<Seq<char>>)
    ensures
        forall|i: int|
            0 <= i < wireless(records(text), fragment).len() ==> {
                let network = #[trigger] wireless(records(text), fragment)[i];
                &&& records(text).contains(network)
                &&& contains(network.name, "wlan"@) || contains(network.name, "wlp"@)
                &&& network.inet is Some
                &&& fragment matches Some(wanted) ==> contains(network.name, wanted)
            },
        forall|i: int|
            0 <= i < records(text).len() && is_listed_for(
                #[trigger] records(text)[i],
                "wlan"@,
                "wlp"@,
                fragment,
            ) ==> wireless(records(text), fragment).contains(records(text)[i]),
{
    lemma_listed_are_records(text, "wlan"@, "wlp"@, fragment);
}

/// Every wired interface that is listed for a text is one of the records of
/// the text, has `eth` or `enp` in its name and has its address set; where a
/// fragment was asked for, that stands in its name too. No such record of the
/// text is missing from the list.
pub proof fn lemma_wired_are_listed(text: Seq<char>, fragment: Option<Seq<char>>)
    ensures
        forall|i: int|
            0 <= i < wired(records(text), fragment).len() ==> {
                let network = #[trigger] wired(records(text), fragment)[i];
                &&& records(text).contains(network)
                &&& contains(network.name, "eth"@) || contains(network.name, "enp"@)
                &&& network.inet is Some
                &&& fragment matches Some(wanted) ==> contains(network.name, wanted)
            },
        forall|i: int|
            0 <= i < records(text).len() && is_listed_for(
                #[trigger] records(text)[i],
                "eth"@,
                "enp"@,
                fragment,
            ) ==> wired(records(text), fragment).contains(records(text)[i]),
{
    lemma_listed_are_records(text, "eth"@, "enp"@, fragment);
}

} // verus!
