//! The record of one network interface, and its rendering as text.

use vstd::prelude::*;
use vstd::string::*;
use crate::text::{is_single_line, lemma_lines_after_first, lemma_lines_of_single, lines};

verus! {

/// A network interface with what is known of it. Only the name is always
/// there; each of the other fields is unset where the interface has none.
pub struct Network {
    /// The name of the interface.
    pub name: String,
    /// Its IP address.
    pub inet: Option<String>,
    /// Its broadcast address.
    pub broadcast: Option<String>,
    /// Its netmask.
    pub netmask: Option<String>,
    /// Its MAC address.
    pub mac: Option<String>,
}

/// The mathematical value of a `Network`: each text as its sequence of
/// characters.
pub struct NetworkView {
    pub name: Seq<char>,
    pub inet: Option<Seq<char>>,
    pub broadcast: Option<Seq<char>>,
    pub netmask: Option<Seq<char>>,
    pub mac: Option<Seq<char>>,
}

/// The value of an optional string.
pub open spec fn option_view(value: Option<String>) -> Option<Seq<char>> {
    match value {
        Some(text) => Some(text@),
        None => None,
    }
}

/// The values of a sequence of records, in the same order.
pub open spec fn views(networks: Seq<Network>) -> Seq<NetworkView> {
    networks.map_values(|network: Network| network@)
}

/// The line of a field in a rendering: the label, a colon, a space and the
/// value.
pub open spec fn labelled(label: Seq<char>, value: Seq<char>) -> Seq<char> {
    label + seq![':', ' '] + value
}

/// What an optional field adds to a rendering: a line break and the line of
/// the field; nothing at all where the field is unset.
pub open spec fn field_line(label: Seq<char>, value: Option<Seq<char>>) -> Seq<char> {
    match value {
        Some(text) => seq!['\n'] + labelled(label, text),
        None => Seq::empty(),
    }
}

/// The rendering of a record: one line for each field that is set, in the
/// order name, inet, broadcast, netmask, mac, with a line break between two
/// lines and none at the end.
pub open spec fn rendered(network: NetworkView) -> Seq<char> {
    labelled("name"@, network.name) + field_line("inet"@, network.inet) + field_line(
        "broadcast"@,
        network.broadcast,
    ) + field_line("netmask"@, network.netmask) + field_line("mac"@, network.mac)
}

impl View for Network {
    type V = NetworkView;

    open spec fn view(&self) -> NetworkView {
        NetworkView {
            name: self.name@,
            inet: option_view(self.inet),
            broadcast: option_view(self.broadcast),
            netmask: option_view(self.netmask),
            mac: option_view(self.mac),
        }
    }
}

fn clone_field(value: &Option<String>) -> (copy: Option<String>)
    ensures
        copy == *value,
{
    match value {
        Some(text) => Some(text.clone()),
        None => None,
    }
}

fn append_field(out: &mut String, label: &str, value: &Option<String>)
    ensures
        final(out)@ == old(out)@ + field_line(label@, option_view(*value)),
{
    match value {
        Some(text) => {
            let ghost before = out@;
            out.append("\n");
            out.append(label);
            out.append(": ");
            out.append(text.as_str());
            proof {
                reveal_strlit("\n");
                reveal_strlit(": ");
                assert("\n"@ =~= seq!['\n']);
                assert(": "@ =~= seq![':', ' ']);
                assert(out@ =~= before + (seq!['\n'] + labelled(label@, text@)));
            }
        },
        None => {
            assert(out@ =~= out@ + Seq::<char>::empty());
        },
    }
}

impl Clone for Network {
    fn clone(&self) -> (copy: Self)
        ensures
            copy == *self,
    {
        Network {
            name: self.name.clone(),
            inet: clone_field(&self.inet),
            broadcast: clone_field(&self.broadcast),
            netmask: clone_field(&self.netmask),
            mac: clone_field(&self.mac),
        }
    }
}

impl Network {
    /// The record as readable text, one line for each field that is set.
    pub fn render(&self) -> (text: String)
        ensures
            text@ == rendered(self@),
    {
        let mut text = String::from_str("name");
        text.append(": ");
        text.append(self.name.as_str());
        proof {
            reveal_strlit(": ");
            assert(": "@ =~= seq![':', ' ']);
        }
        append_field(&mut text, "inet", &self.inet);
        append_field(&mut text, "broadcast", &self.broadcast);
        append_field(&mut text, "netmask", &self.netmask);
        append_field(&mut text, "mac", &self.mac);
        text
    }
}

/// A record with nothing but a name is rendered as `name: ` and the name, and
/// nothing else.
pub proof fn lemma_rendered_name_only(network: NetworkView)
    requires
        network.inet is None,
        network.broadcast is None,
        network.netmask is None,
        network.mac is None,
    ensures
        rendered(network) == "name: "@ + network.name,
{
    reveal_strlit("name");
    reveal_strlit("name: ");
    assert("name: "@ =~= "name"@ + seq![':', ' ']);
    assert(rendered(network) =~= "name: "@ + network.name);
}

/// A record with every field set, and no line break in any of them, is
/// rendered in five lines: name, inet, broadcast, netmask and mac, in this
/// order, each as its label, a colon, a space and the value.
pub proof fn lemma_rendered_in_full(network: NetworkView)
    requires
        network.inet is Some,
        network.broadcast is Some,
        network.netmask is Some,
        network.mac is Some,
        is_single_line(network.name),
        is_single_line(network.inet->0),
        is_single_line(network.broadcast->0),
        is_single_line(network.netmask->0),
        is_single_line(network.mac->0),
    ensures
        lines(rendered(network)) == seq![
            labelled("name"@, network.name),
            labelled("inet"@, network.inet->0),
            labelled("broadcast"@, network.broadcast->0),
            labelled("netmask"@, network.netmask->0),
            labelled("mac"@, network.mac->0),
        ],
{
    reveal_strlit("name");
    reveal_strlit("inet");
    reveal_strlit("broadcast");
    reveal_strlit("netmask");
    reveal_strlit("mac");
    let name = labelled("name"@, network.name);
    let inet = labelled("inet"@, network.inet->0);
    let broadcast = labelled("broadcast"@, network.broadcast->0);
    let netmask = labelled("netmask"@, network.netmask->0);
    let mac = labelled("mac"@, network.mac->0);
    let after_netmask = mac;
    let after_broadcast = netmask + seq!['\n'] + after_netmask;
    let after_inet = broadcast + seq!['\n'] + after_broadcast;
    let after_name = inet + seq!['\n'] + after_inet;
    assert(rendered(network) =~= name + seq!['\n'] + after_name);
    lemma_lines_after_first(name, after_name);
    lemma_lines_after_first(inet, after_inet);
    lemma_lines_after_first(broadcast, after_broadcast);
    lemma_lines_after_first(netmask, after_netmask);
    lemma_lines_of_single(mac);
    assert(lines(rendered(network)) =~= seq![name, inet, broadcast, netmask, mac]);
}

} // verus!
