//! Which sources play to which outputs: the stored intent, the PipeWire links it
//! comes to, and the matrix that is shown of it.
//!
//! Levels and peaks are 32-bit floats in their bit pattern.

use crate::announce::{dialed_established, dialed_session_established};
use crate::devices::{Ap2Device, SendspinDevice};
use crate::graph::{link_ids_between, LinkSpec, NodeInfo, PortInfo, RegistryState};
use crate::maps::{lemma_sorted_unique, sorted_names, NameMap, NameSet};
use crate::names::{display_name, kind_of, kind_prefix, output_display_name, OutputKind, AP2_DEV_PREFIX, PWSINK_DEV_PREFIX, SENDSPIN_DEV_PREFIX, SENDSPIN_NODE_PREFIX};
use crate::targets::PwSinkLiveness;
use crate::text::{after_last, after_last_spec, comes_before, joined3, lemma_lex_asymmetric, lemma_lex_irreflexive, lemma_lex_total, lemma_lex_transitive, lex_lt, opt_view, same, starts_with, views};
use vstd::prelude::*;

verus! {

/// One stored route, by node names.
#[derive(Clone, Debug, PartialEq, Eq)]
pub struct RoutingLink {
    pub source: String,
    pub output: String,
}

/// The model of a route: its source and its output.
pub type Route = (Seq<char>, Seq<char>);

impl RoutingLink {
    pub open spec fn view(&self) -> Route {
        (self.source@, self.output@)
    }

    pub fn copy(&self) -> (r: Self)
        ensures
            r@ == self@,
    {
        RoutingLink { source: self.source.clone(), output: self.output.clone() }
    }
}

/// The models of a list of routes.
pub open spec fn routes(intent: Seq<RoutingLink>) -> Seq<Route> {
    intent.map_values(|l: RoutingLink| l@)
}

/// The sources that are routed to `output`.
pub open spec fn sources_of(intent: Seq<Route>, output: Seq<char>) -> Set<Seq<char>> {
    Set::new(|s: Seq<char>| intent.contains((s, output)))
}

/// The sources that are routed to `output`, once each and in order.
pub fn source_set_of(intent: &[RoutingLink], output: &str) -> (r: NameSet)
    ensures
        r@ == sources_of(routes(intent@), output@),
{
    let mut out = NameSet::new();
    let ghost all = routes(intent@);
    let mut i: usize = 0;
    while i < intent.len()
        invariant
            i <= intent@.len(),
            all == routes(intent@),
            forall|s: Seq<char>| #[trigger]
                out@.contains(s) <==> all.take(i as int).contains((s, output@)),
        decreases intent.len() - i,
    {
        proof {
            crate::maps::lemma_take_next(all, i as int);
        }
        if same(&intent[i].output, output) {
            out.insert(intent[i].source.clone());
        }
        i += 1;
    }
    proof {
        assert(all.take(i as int) =~= all);
        assert(out@ =~= sources_of(all, output@));
    }
    out
}

/// The routes to the outputs in `to`.
pub open spec fn routes_to(intent: Seq<Route>, to: Set<Seq<char>>) -> Seq<Route> {
    intent.filter(|l: Route| to.contains(l.1))
}

/// The routes to the outputs in `to`, in the order they are stored.
pub fn links_to(intent: &[RoutingLink], to: &NameSet) -> (r: Vec<RoutingLink>)
    ensures
        routes(r@) == routes_to(routes(intent@), to@),
{
    let mut out: Vec<RoutingLink> = Vec::new();
    let ghost all = routes(intent@);
    let ghost keep = |l: Route| to@.contains(l.1);
    let mut i: usize = 0;
    proof {
        assert(all.take(0) =~= Seq::empty());
        reveal(Seq::filter);
        assert(routes(out@) =~= all.take(0).filter(keep));
    }
    while i < intent.len()
        invariant
            i <= intent@.len(),
            all == routes(intent@),
            keep == (|l: Route| to@.contains(l.1)),
            routes(out@) == all.take(i as int).filter(keep),
        decreases intent.len() - i,
    {
        let ghost before = routes(out@);
        proof {
            reveal(Seq::filter);
            assert(all.take(i + 1).drop_last() =~= all.take(i as int));
        }
        if to.contains(&intent[i].output) {
            out.push(intent[i].copy());
            assert(routes(out@) =~= before.push(all[i as int]));
        }
        i += 1;
    }
    assert(all.take(i as int) =~= all);
    out
}

// ---- nodes and ports ----------------------------------------------------------

/// The highest id among the nodes that `p` picks.
pub open spec fn newest(nodes: Seq<NodeInfo>, p: spec_fn(NodeInfo) -> bool) -> Option<u32>
    decreases nodes.len(),
{
    if nodes.len() == 0 {
        None
    } else {
        let before = newest(nodes.drop_last(), p);
        let n = nodes.last();
        if !p(n) {
            before
        } else if before is Some && before->0 > n.node_id {
            before
        } else {
            Some(n.node_id)
        }
    }
}

/// The id of the newest node of this name.
pub open spec fn id_of(reg: RegistryState, name: Seq<char>) -> Option<u32> {
    newest(reg.nodes.values(), |n: NodeInfo| n.node_name@ == name)
}

/// The id of the newest live node of this name. Names are not unique in the graph,
/// and a node can outlive its owner for a moment, so the highest id is taken.
pub fn node_id_for(reg: &RegistryState, node_name: &str) -> (r: Option<u32>)
    ensures
        r == id_of(*reg, node_name@),
{
    let n: usize = reg.nodes.len();
    let ghost nodes = reg.nodes.values();
    let ghost p = |n: NodeInfo| n.node_name@ == node_name@;
    let mut best: Option<u32> = None;
    let mut i: usize = 0;
    while i < n
        invariant
            i <= n,
            n == reg.nodes.values().len(),
            n == reg.nodes.ids().len(),
            nodes == reg.nodes.values(),
            p == (|n: NodeInfo| n.node_name@ == node_name@),
            best == newest(nodes.take(i as int), p),
        decreases n - i,
    {
        let node = reg.nodes.value_at(i);
        proof {
            assert(nodes.take(i + 1).drop_last() =~= nodes.take(i as int));
        }
        if same(&node.node_name, node_name) {
            best = larger(best, node.node_id);
        }
        i += 1;
    }
    assert(nodes.take(n as int) =~= nodes);
    best
}

fn larger(best: Option<u32>, id: u32) -> (r: Option<u32>)
    ensures
        r == if best is Some && best->0 > id {
            best
        } else {
            Some(id)
        },
{
    match best {
        Some(b) => if b > id {
            best
        } else {
            Some(id)
        },
        None => Some(id),
    }
}

/// Whether a node is one of the outputs that have a node of their own.
pub open spec fn output_node(name: Seq<char>) -> bool {
    SENDSPIN_NODE_PREFIX@.is_prefix_of(name)
}

/// Whether `p` is a port that `node_id` plays out of; a monitor tap is none.
pub open spec fn plays_out(p: PortInfo, node_id: u32, monitor: bool) -> bool {
    p.node_id == node_id && p.direction@ == "out"@ && "monitor_"@.is_prefix_of(p.port_name@)
        == monitor
}

fn is_playing_port(p: &PortInfo, node_id: u32, monitor: bool) -> (r: bool)
    ensures
        r == plays_out(*p, node_id, monitor),
{
    p.node_id == node_id && same(&p.direction, "out") && starts_with(&p.port_name, "monitor_")
        == monitor
}

/// Whether the node is a source: it plays out of some port, and is no output.
pub open spec fn is_source(reg: RegistryState, n: NodeInfo) -> bool {
    !output_node(n.node_name@) && exists|i: int|
        0 <= i < reg.ports.values().len() && plays_out(
            #[trigger] reg.ports.values()[i],
            n.node_id,
            false,
        )
}

fn is_source_node(reg: &RegistryState, n: &NodeInfo) -> (r: bool)
    ensures
        r == is_source(*reg, *n),
{
    if starts_with(&n.node_name, SENDSPIN_NODE_PREFIX) {
        return false;
    }
    let m: usize = reg.ports.len();
    let mut i: usize = 0;
    while i < m
        invariant
            i <= m,
            m == reg.ports.values().len(),
            m == reg.ports.ids().len(),
            !output_node(n.node_name@),
            forall|j: int|
                0 <= j < i ==> !plays_out(#[trigger] reg.ports.values()[j], n.node_id, false),
        decreases m - i,
    {
        if is_playing_port(reg.ports.value_at(i), n.node_id, false) {
            assert(plays_out(reg.ports.values()[i as int], n.node_id, false));
            return true;
        }
        i += 1;
    }
    false
}

/// The id of the newest source of this name.
pub open spec fn source_id(reg: RegistryState, name: Seq<char>) -> Option<u32> {
    newest(reg.nodes.values(), |n: NodeInfo| n.node_name@ == name && is_source(reg, n))
}

/// The id of the newest output node of this name.
pub open spec fn output_id(reg: RegistryState, name: Seq<char>) -> Option<u32> {
    newest(reg.nodes.values(), |n: NodeInfo| n.node_name@ == name && output_node(name))
}

fn source_id_for(reg: &RegistryState, node_name: &str) -> (r: Option<u32>)
    ensures
        r == source_id(*reg, node_name@),
{
    let n: usize = reg.nodes.len();
    let ghost nodes = reg.nodes.values();
    let ghost p = |n: NodeInfo| n.node_name@ == node_name@ && is_source(*reg, n);
    let mut best: Option<u32> = None;
    let mut i: usize = 0;
    while i < n
        invariant
            i <= n,
            n == reg.nodes.values().len(),
            n == reg.nodes.ids().len(),
            nodes == reg.nodes.values(),
            p == (|n: NodeInfo| n.node_name@ == node_name@ && is_source(*reg, n)),
            best == newest(nodes.take(i as int), p),
        decreases n - i,
    {
        let node = reg.nodes.value_at(i);
        proof {
            assert(nodes.take(i + 1).drop_last() =~= nodes.take(i as int));
        }
        if same(&node.node_name, node_name) && is_source_node(reg, node) {
            best = larger(best, node.node_id);
        }
        i += 1;
    }
    assert(nodes.take(n as int) =~= nodes);
    best
}

fn output_id_for(reg: &RegistryState, node_name: &str) -> (r: Option<u32>)
    ensures
        r == output_id(*reg, node_name@),
{
    let ghost p = |n: NodeInfo| n.node_name@ == node_name@;
    let ghost q = |n: NodeInfo| n.node_name@ == node_name@ && output_node(node_name@);
    if starts_with(node_name, SENDSPIN_NODE_PREFIX) {
        proof {
            assert forall|n: NodeInfo| #[trigger] p(n) == q(n) by {}
            lemma_newest_same(reg.nodes.values(), p, q);
        }
        node_id_for(reg, node_name)
    } else {
        proof {
            lemma_newest_none(reg.nodes.values(), q);
        }
        None
    }
}

proof fn lemma_newest_same(
    nodes: Seq<NodeInfo>,
    p: spec_fn(NodeInfo) -> bool,
    q: spec_fn(NodeInfo) -> bool,
)
    requires
        forall|n: NodeInfo| #[trigger] p(n) == q(n),
    ensures
        newest(nodes, p) == newest(nodes, q),
    decreases nodes.len(),
{
    if nodes.len() > 0 {
        lemma_newest_same(nodes.drop_last(), p, q);
        assert(p(nodes.last()) == q(nodes.last()));
    }
}

proof fn lemma_newest_none(nodes: Seq<NodeInfo>, p: spec_fn(NodeInfo) -> bool)
    requires
        forall|i: int| 0 <= i < nodes.len() ==> !p(#[trigger] nodes[i]),
    ensures
        newest(nodes, p) is None,
    decreases nodes.len(),
{
    if nodes.len() > 0 {
        let rest = nodes.drop_last();
        assert forall|i: int| 0 <= i < rest.len() implies !p(#[trigger] rest[i]) by {
            assert(rest[i] == nodes[i]);
        }
        lemma_newest_none(rest, p);
        assert(!p(nodes[nodes.len() - 1]));
    }
}

/// The channel a port name ends with.
pub fn channel_suffix(port_name: &str) -> (r: String)
    ensures
        r@ == after_last_spec(port_name@, '_'),
{
    after_last(port_name, '_')
}

/// The first input port of the node on this channel.
pub open spec fn input_on(ports: Seq<PortInfo>, node_id: u32, channel: Seq<char>) -> Option<u32>
    decreases ports.len(),
{
    if ports.len() == 0 {
        None
    } else {
        let p = ports[0];
        if p.node_id == node_id && p.direction@ == "in"@ && after_last_spec(p.port_name@, '_')
            == channel {
            Some(p.port_id)
        } else {
            input_on(ports.skip(1), node_id, channel)
        }
    }
}

/// The link that brings the port's channel to the output, where the output has an
/// input for it.
pub open spec fn channel_link(
    ports: Seq<PortInfo>,
    p: PortInfo,
    source: u32,
    output: u32,
) -> Option<LinkSpec> {
    match input_on(ports, output, after_last_spec(p.port_name@, '_')) {
        Some(in_port) => Some(
            LinkSpec { out_node: source, out_port: p.port_id, in_node: output, in_port },
        ),
        None => None,
    }
}

/// The links from the first `n` ports: each port the source plays out of, with the
/// first input of the output on the same channel.
pub open spec fn channel_links(
    ports: Seq<PortInfo>,
    n: int,
    source: u32,
    output: u32,
    monitor: bool,
) -> Seq<LinkSpec>
    decreases
            if n > 0 {
                n
            } else {
                0
            },
{
    if n <= 0 {
        Seq::empty()
    } else {
        let before = channel_links(ports, n - 1, source, output, monitor);
        let p = ports[n - 1];
        let link = channel_link(ports, p, source, output);
        if plays_out(p, source, monitor) && link is Some {
            before.push(link->0)
        } else {
            before
        }
    }
}

/// The links that carry a source to an output: none where either node is gone.
pub open spec fn links_of(
    reg: RegistryState,
    source: u32,
    output: u32,
    monitor: bool,
) -> Seq<LinkSpec> {
    if reg.nodes@.contains_key(source) && reg.nodes@.contains_key(output) {
        let ports = reg.ports.values();
        channel_links(ports, ports.len() as int, source, output, monitor)
    } else {
        Seq::empty()
    }
}

fn input_port_on(reg: &RegistryState, node_id: u32, channel: &str) -> (r: Option<u32>)
    ensures
        r == input_on(reg.ports.values(), node_id, channel@),
{
    let m: usize = reg.ports.len();
    let ghost ports = reg.ports.values();
    let mut i: usize = 0;
    proof {
        assert(ports.skip(0) =~= ports);
    }
    while i < m
        invariant
            i <= m,
            m == reg.ports.values().len(),
            m == reg.ports.ids().len(),
            ports == reg.ports.values(),
            input_on(ports, node_id, channel@) == input_on(ports.skip(i as int), node_id, channel@),
        decreases m - i,
    {
        let p = reg.ports.value_at(i);
        proof {
            assert(ports.skip(i as int)[0] == ports[i as int]);
            assert(ports.skip(i as int).skip(1) =~= ports.skip(i + 1));
        }
        if p.node_id == node_id && same(&p.direction, "in") && same(
            &channel_suffix(&p.port_name),
            channel,
        ) {
            return Some(p.port_id);
        }
        i += 1;
    }
    None
}

/// The links that carry a source to an output, channel by channel; with `monitor`,
/// those of the source's monitor taps.
pub fn matched_port_specs(reg: &RegistryState, source: u32, output: u32, monitor: bool) -> (r: Vec<
    LinkSpec,
>)
    ensures
        r@ == links_of(*reg, source, output, monitor),
{
    let mut out: Vec<LinkSpec> = Vec::new();
    if !reg.nodes.contains_key(source) || !reg.nodes.contains_key(output) {
        return out;
    }
    let m: usize = reg.ports.len();
    let ghost ports = reg.ports.values();
    let mut i: usize = 0;
    while i < m
        invariant
            i <= m,
            m == reg.ports.values().len(),
            m == reg.ports.ids().len(),
            ports == reg.ports.values(),
            out@ == channel_links(ports, i as int, source, output, monitor),
        decreases m - i,
    {
        let p = reg.ports.value_at(i);
        if is_playing_port(p, source, monitor) {
            match input_port_on(reg, output, &channel_suffix(&p.port_name)) {
                Some(in_port) => {
                    out.push(
                        LinkSpec {
                            out_node: source,
                            out_port: p.port_id,
                            in_node: output,
                            in_port,
                        },
                    );
                },
                None => {},
            }
        }
        i += 1;
    }
    out
}

/// Every link starts at a port the source plays out of and ends at an input of the
/// output on the same channel.
pub proof fn law_links_keep_the_channel(
    reg: RegistryState,
    source: u32,
    output: u32,
    monitor: bool,
    k: int,
)
    requires
        0 <= k < links_of(reg, source, output, monitor).len(),
    ensures
        ({
            let l = links_of(reg, source, output, monitor)[k];
            let ports = reg.ports.values();
            &&& l.out_node == source
            &&& l.in_node == output
            &&& exists|i: int, j: int|
                #![trigger ports[i], ports[j]]
                0 <= i < ports.len() && 0 <= j < ports.len() && plays_out(ports[i], source, monitor)
                    && ports[i].port_id == l.out_port && ports[j].node_id == output
                    && ports[j].direction@ == "in"@ && ports[j].port_id == l.in_port
                    && after_last_spec(ports[i].port_name@, '_') == after_last_spec(
                    ports[j].port_name@,
                    '_',
                )
        }),
{
    lemma_channel_links(reg.ports.values(), reg.ports.values().len() as int, source, output, monitor, k);
}

proof fn lemma_channel_links(
    ports: Seq<PortInfo>,
    n: int,
    source: u32,
    output: u32,
    monitor: bool,
    k: int,
)
    requires
        0 <= n <= ports.len(),
        0 <= k < channel_links(ports, n, source, output, monitor).len(),
    ensures
        ({
            let l = channel_links(ports, n, source, output, monitor)[k];
            &&& l.out_node == source
            &&& l.in_node == output
            &&& exists|i: int, j: int|
                #![trigger ports[i], ports[j]]
                0 <= i < ports.len() && 0 <= j < ports.len() && plays_out(ports[i], source, monitor)
                    && ports[i].port_id == l.out_port && ports[j].node_id == output
                    && ports[j].direction@ == "in"@ && ports[j].port_id == l.in_port
                    && after_last_spec(ports[i].port_name@, '_') == after_last_spec(
                    ports[j].port_name@,
                    '_',
                )
        }),
    decreases n,
{
    if k < channel_links(ports, n - 1, source, output, monitor).len() {
        lemma_channel_links(ports, n - 1, source, output, monitor, k);
    } else {
        let channel = after_last_spec(ports[n - 1].port_name@, '_');
        lemma_input_on(ports, output, channel);
    }
}

proof fn lemma_input_on(ports: Seq<PortInfo>, node_id: u32, channel: Seq<char>)
    requires
        input_on(ports, node_id, channel) is Some,
    ensures
        exists|j: int|
            0 <= j < ports.len() && (#[trigger] ports[j]).node_id == node_id && ports[j].direction@
                == "in"@ && ports[j].port_id == input_on(ports, node_id, channel)->0
                && after_last_spec(ports[j].port_name@, '_') == channel,
    decreases ports.len(),
{
    let p = ports[0];
    if !(p.node_id == node_id && p.direction@ == "in"@ && after_last_spec(p.port_name@, '_')
        == channel) {
        let rest = ports.skip(1);
        lemma_input_on(rest, node_id, channel);
        let j = choose|j: int|
            0 <= j < rest.len() && (#[trigger] rest[j]).node_id == node_id && rest[j].direction@
                == "in"@ && rest[j].port_id == input_on(rest, node_id, channel)->0
                && after_last_spec(rest[j].port_name@, '_') == channel;
        assert(ports[j + 1] == rest[j]);
    }
}

proof fn lemma_newest_alike(nodes: Seq<NodeInfo>)
    ensures
        forall|p: spec_fn(NodeInfo) -> bool, q: spec_fn(NodeInfo) -> bool|
            (forall|n: NodeInfo| #[trigger] p(n) == q(n)) ==> #[trigger] newest(nodes, p)
                == #[trigger] newest(nodes, q),
{
    assert forall|p: spec_fn(NodeInfo) -> bool, q: spec_fn(NodeInfo) -> bool|
        (forall|n: NodeInfo| #[trigger] p(n) == q(n)) implies #[trigger] newest(nodes, p)
        == #[trigger] newest(nodes, q) by {
        lemma_newest_same(nodes, p, q);
    }
}

proof fn lemma_newest(nodes: Seq<NodeInfo>, p: spec_fn(NodeInfo) -> bool)
    ensures
        newest(nodes, p) is Some <==> exists|i: int| 0 <= i < nodes.len() && p(#[trigger] nodes[i]),
        forall|i: int|
            0 <= i < nodes.len() && p(#[trigger] nodes[i]) ==> nodes[i].node_id <= newest(
                nodes,
                p,
            )->0,
        newest(nodes, p) is Some ==> exists|i: int|
            0 <= i < nodes.len() && p(#[trigger] nodes[i]) && nodes[i].node_id == newest(
                nodes,
                p,
            )->0,
    decreases nodes.len(),
{
    if nodes.len() > 0 {
        let front = nodes.drop_last();
        let n = nodes.last();
        lemma_newest(front, p);
        assert(nodes[nodes.len() - 1] == n);
        assert forall|i: int| 0 <= i < nodes.len() && p(#[trigger] nodes[i]) implies nodes[i].node_id
            <= newest(nodes, p)->0 by {
            if i < front.len() {
                assert(front[i] == nodes[i]);
            }
        }
        if newest(nodes, p) is Some {
            if newest(front, p) == newest(nodes, p) {
                let i = choose|i: int|
                    0 <= i < front.len() && p(#[trigger] front[i]) && front[i].node_id == newest(
                        front,
                        p,
                    )->0;
                assert(nodes[i] == front[i]);
            } else {
                assert(p(nodes[nodes.len() - 1]));
            }
        }
        if exists|i: int| 0 <= i < nodes.len() && p(#[trigger] nodes[i]) {
            let i = choose|i: int| 0 <= i < nodes.len() && p(#[trigger] nodes[i]);
            if i < front.len() {
                assert(front[i] == nodes[i]);
            }
        }
    }
}

/// A node is found by its name exactly where the graph has one of that name, and
/// where it has several the one with the highest id is found.
pub proof fn law_the_newest_of_a_name_is_found(reg: RegistryState, name: Seq<char>)
    ensures
        id_of(reg, name) is Some <==> exists|i: int|
            0 <= i < reg.nodes.values().len() && (#[trigger] reg.nodes.values()[i]).node_name@
                == name,
        id_of(reg, name) is Some ==> exists|i: int|
            0 <= i < reg.nodes.values().len() && (#[trigger] reg.nodes.values()[i]).node_name@
                == name && reg.nodes.values()[i].node_id == id_of(reg, name)->0,
        forall|i: int|
            0 <= i < reg.nodes.values().len() && (#[trigger] reg.nodes.values()[i]).node_name@
                == name ==> reg.nodes.values()[i].node_id <= id_of(reg, name)->0,
{
    let nodes = reg.nodes.values();
    let p = |n: NodeInfo| n.node_name@ == name;
    lemma_newest(nodes, p);
    lemma_newest_alike(nodes);
    assert(id_of(reg, name) == newest(nodes, p));
    if exists|i: int| 0 <= i < nodes.len() && (#[trigger] nodes[i]).node_name@ == name {
        let i = choose|i: int| 0 <= i < nodes.len() && (#[trigger] nodes[i]).node_name@ == name;
        assert(p(nodes[i]));
    }
    if id_of(reg, name) is Some {
        let i = choose|i: int|
            0 <= i < nodes.len() && p(#[trigger] nodes[i]) && nodes[i].node_id == newest(
                nodes,
                p,
            )->0;
        assert(nodes[i].node_name@ == name);
    }
    assert forall|i: int| 0 <= i < nodes.len() && (#[trigger] nodes[i]).node_name@ == name implies
        nodes[i].node_id <= id_of(reg, name)->0 by {
        assert(p(nodes[i]));
    }
}

/// Port `i` is one that audio leaves `node_id` by.
pub open spec fn leaves_by(ports: Seq<PortInfo>, i: int, node_id: u32, monitor: bool) -> bool {
    0 <= i < ports.len() && ports[i].node_id == node_id && ports[i].direction@ == "out"@
        && "monitor_"@.is_prefix_of(ports[i].port_name@) == monitor
}

/// Port `j` takes audio into `node_id` on the channel of port `i`.
pub open spec fn takes_from(ports: Seq<PortInfo>, i: int, j: int, node_id: u32) -> bool {
    0 <= j < ports.len() && ports[j].node_id == node_id && ports[j].direction@ == "in"@
        && after_last_spec(ports[j].port_name@, '_') == after_last_spec(ports[i].port_name@, '_')
}

proof fn lemma_first_input(ports: Seq<PortInfo>, node_id: u32, channel: Seq<char>, j: int)
    requires
        0 <= j < ports.len(),
        ports[j].node_id == node_id,
        ports[j].direction@ == "in"@,
        after_last_spec(ports[j].port_name@, '_') == channel,
        forall|m: int|
            0 <= m < j ==> !((#[trigger] ports[m]).node_id == node_id && ports[m].direction@
                == "in"@ && after_last_spec(ports[m].port_name@, '_') == channel),
    ensures
        input_on(ports, node_id, channel) == Some(ports[j].port_id),
    decreases ports.len(),
{
    if j > 0 {
        assert(!(ports[0].node_id == node_id && ports[0].direction@ == "in"@ && after_last_spec(
            ports[0].port_name@,
            '_',
        ) == channel));
        let rest = ports.skip(1);
        assert forall|m: int| 0 <= m < j - 1 implies !((#[trigger] rest[m]).node_id == node_id
            && rest[m].direction@ == "in"@ && after_last_spec(rest[m].port_name@, '_')
            == channel) by {
            assert(rest[m] == ports[m + 1]);
        }
        lemma_first_input(rest, node_id, channel, j - 1);
    }
}

proof fn lemma_links_so_far(
    ports: Seq<PortInfo>,
    n: int,
    source: u32,
    output: u32,
    monitor: bool,
    i: int,
    j: int,
)
    requires
        0 <= i < n <= ports.len(),
        leaves_by(ports, i, source, monitor),
        takes_from(ports, i, j, output),
        forall|m: int| 0 <= m < j ==> !#[trigger] takes_from(ports, i, m, output),
    ensures
        channel_links(ports, n, source, output, monitor).contains(
            LinkSpec {
                out_node: source,
                out_port: ports[i].port_id,
                in_node: output,
                in_port: ports[j].port_id,
            },
        ),
    decreases n,
{
    let all = channel_links(ports, n, source, output, monitor);
    let before = channel_links(ports, n - 1, source, output, monitor);
    let l = LinkSpec {
        out_node: source,
        out_port: ports[i].port_id,
        in_node: output,
        in_port: ports[j].port_id,
    };
    if i == n - 1 {
        let channel = after_last_spec(ports[i].port_name@, '_');
        assert forall|m: int| 0 <= m < j implies !((#[trigger] ports[m]).node_id == output
            && ports[m].direction@ == "in"@ && after_last_spec(ports[m].port_name@, '_')
            == channel) by {
            assert(!takes_from(ports, i, m, output));
        }
        lemma_first_input(ports, output, channel, j);
        assert(all == before.push(l));
        assert(all[all.len() - 1] == l);
    } else {
        lemma_links_so_far(ports, n - 1, source, output, monitor, i, j);
        let k = choose|k: int| 0 <= k < before.len() && before[k] == l;
        assert(all[k] == l);
    }
}

/// Every channel that both ends have is carried: each port that audio leaves the
/// source by is linked to the first input of the output on the same channel.
pub proof fn law_every_matching_channel_is_linked(
    reg: RegistryState,
    source: u32,
    output: u32,
    monitor: bool,
    i: int,
    j: int,
)
    requires
        reg.nodes@.contains_key(source),
        reg.nodes@.contains_key(output),
        leaves_by(reg.ports.values(), i, source, monitor),
        takes_from(reg.ports.values(), i, j, output),
        forall|m: int| 0 <= m < j ==> !#[trigger] takes_from(reg.ports.values(), i, m, output),
    ensures
        links_of(reg, source, output, monitor).contains(
            LinkSpec {
                out_node: source,
                out_port: reg.ports.values()[i].port_id,
                in_node: output,
                in_port: reg.ports.values()[j].port_id,
            },
        ),
{
    let ports = reg.ports.values();
    lemma_links_so_far(ports, ports.len() as int, source, output, monitor, i, j);
}

proof fn lemma_links_start_at(
    ports: Seq<PortInfo>,
    n: int,
    source: u32,
    output: u32,
    monitor: bool,
    k: int,
) -> (i: int)
    requires
        0 <= n <= ports.len(),
        0 <= k < channel_links(ports, n, source, output, monitor).len(),
    ensures
        0 <= i < n,
        leaves_by(ports, i, source, monitor),
        channel_links(ports, n, source, output, monitor)[k].out_port == ports[i].port_id,
    decreases n,
{
    let before = channel_links(ports, n - 1, source, output, monitor);
    if k < before.len() {
        lemma_links_start_at(ports, n - 1, source, output, monitor, k)
    } else {
        n - 1
    }
}

proof fn lemma_links_start_apart(
    ports: Seq<PortInfo>,
    n: int,
    source: u32,
    output: u32,
    monitor: bool,
    k: int,
    m: int,
)
    requires
        0 <= n <= ports.len(),
        0 <= k < m < channel_links(ports, n, source, output, monitor).len(),
        forall|i: int, j: int|
            0 <= i < j < ports.len() ==> (#[trigger] ports[i]).port_id != (
            #[trigger] ports[j]).port_id,
    ensures
        channel_links(ports, n, source, output, monitor)[k].out_port != channel_links(
            ports,
            n,
            source,
            output,
            monitor,
        )[m].out_port,
    decreases n,
{
    let before = channel_links(ports, n - 1, source, output, monitor);
    if m < before.len() {
        lemma_links_start_apart(ports, n - 1, source, output, monitor, k, m);
    } else {
        let i = lemma_links_start_at(ports, n - 1, source, output, monitor, k);
        assert(ports[i].port_id != ports[n - 1].port_id);
    }
}

/// A port that audio leaves by is linked once at most, and a node that is gone is
/// not linked at all.
pub proof fn law_a_port_is_linked_once(
    reg: RegistryState,
    source: u32,
    output: u32,
    monitor: bool,
    k: int,
    m: int,
)
    requires
        forall|i: int, j: int|
            0 <= i < j < reg.ports.values().len() ==> (#[trigger] reg.ports.values()[i]).port_id
                != (#[trigger] reg.ports.values()[j]).port_id,
        0 <= k < m < links_of(reg, source, output, monitor).len(),
    ensures
        links_of(reg, source, output, monitor)[k].out_port != links_of(
            reg,
            source,
            output,
            monitor,
        )[m].out_port,
        reg.nodes@.contains_key(source),
        reg.nodes@.contains_key(output),
{
    let ports = reg.ports.values();
    lemma_links_start_apart(ports, ports.len() as int, source, output, monitor, k, m);
}

/// What carrying `source` to `output` by name takes: nothing where a node is gone.
pub open spec fn wanted_links(
    reg: RegistryState,
    source: Seq<char>,
    output: Seq<char>,
    monitor: bool,
) -> Seq<LinkSpec> {
    match (id_of(reg, source), id_of(reg, output)) {
        (Some(s), Some(o)) => links_of(reg, s, o, monitor),
        _ => Seq::empty(),
    }
}

/// The links to create so that `source` plays into `output`; with `monitor`, so
/// that its monitor does. None where an end is gone or no channel matches.
pub fn link_by_name(reg: &RegistryState, source: &str, output: &str, monitor: bool) -> (r: Vec<
    LinkSpec,
>)
    ensures
        r@ == wanted_links(*reg, source@, output@, monitor),
{
    match (node_id_for(reg, source), node_id_for(reg, output)) {
        (Some(s), Some(o)) => matched_port_specs(reg, s, o, monitor),
        _ => Vec::new(),
    }
}

// ---- the matrix ----------------------------------------------------------------

/// Which of the two level knobs of an output can be driven right now.
#[derive(Clone, Copy, Debug, PartialEq, Eq, Structural)]
pub struct LevelCaps {
    pub volume: bool,
    pub mute: bool,
}

/// The knobs of an output: the in-band kinds always have both, a remote host those
/// its agent reports, and what is no such output none.
pub open spec fn caps_of(
    node_name: Seq<char>,
    pwsink_volumes: Map<Seq<char>, u32>,
    pwsink_mutes: Map<Seq<char>, bool>,
) -> Option<LevelCaps> {
    match kind_of(node_name) {
        Some(OutputKind::Sendspin) | Some(OutputKind::Airplay2) => Some(
            LevelCaps { volume: true, mute: true },
        ),
        Some(OutputKind::PwSink) => Some(
            LevelCaps {
                volume: pwsink_volumes.contains_key(node_name),
                mute: pwsink_mutes.contains_key(node_name),
            },
        ),
        None => None,
    }
}

/// The knobs of an output, resolved per output and not per kind.
pub fn level_caps(
    node_name: &str,
    pwsink_volumes: &NameMap<u32>,
    pwsink_mutes: &NameMap<bool>,
) -> (r: Option<LevelCaps>)
    ensures
        r == caps_of(node_name@, pwsink_volumes@, pwsink_mutes@),
{
    match OutputKind::of(node_name) {
        Some(OutputKind::Sendspin) | Some(OutputKind::Airplay2) => Some(
            LevelCaps { volume: true, mute: true },
        ),
        Some(OutputKind::PwSink) => Some(
            LevelCaps {
                volume: pwsink_volumes.contains_key(node_name),
                mute: pwsink_mutes.contains_key(node_name),
            },
        ),
        None => None,
    }
}

/// A level as it is known: in percent, or as the bits of a 32-bit float.
#[derive(Clone, Copy, Debug, PartialEq, Eq, Structural)]
pub enum Volume {
    Percent(u8),
    Level(u32),
}

/// The buffering that is configured, in milliseconds.
pub struct LatencyConfig {
    /// Input buffer by source.
    pub source_latencies: NameMap<u32>,
    /// Presentation lead of every sendspin group.
    pub group_lead_ms: u32,
    /// What a sendspin device adds to the lead.
    pub sendspin_delays: NameMap<u16>,
    /// Render delay by AirPlay receiver.
    pub ap2_delays: NameMap<u16>,
    pub ap2_default_ms: u32,
    /// Playout delay by remote host.
    pub pwsink_jitters: NameMap<u16>,
    pub pwsink_default_ms: u32,
}

/// What stands under `key`, else `other`.
pub open spec fn or_else(m: Map<Seq<char>, u16>, key: Seq<char>, other: u32) -> u32 {
    if m.contains_key(key) {
        m[key] as u32
    } else {
        other
    }
}

/// What a map holds under a key.
pub open spec fn lookup<V>(m: Map<Seq<char>, V>, key: Seq<char>) -> Option<V> {
    if m.contains_key(key) {
        Some(m[key])
    } else {
        None
    }
}

/// The playout lead of a sendspin device.
pub open spec fn sendspin_latency(lat: LatencyConfig, node_name: Seq<char>) -> int {
    lat.group_lead_ms + or_else(lat.sendspin_delays@, node_name, 0)
}

/// The buffering that a node adds, as far as it is configured.
pub open spec fn latency_of(lat: LatencyConfig, node_name: Seq<char>) -> Option<u32> {
    if lat.source_latencies@.contains_key(node_name) {
        Some(lat.source_latencies@[node_name])
    } else {
        match kind_of(node_name) {
            Some(OutputKind::Sendspin) => Some(sendspin_latency(lat, node_name) as u32),
            Some(OutputKind::Airplay2) => Some(
                or_else(lat.ap2_delays@, node_name, lat.ap2_default_ms),
            ),
            Some(OutputKind::PwSink) => Some(
                or_else(lat.pwsink_jitters@, node_name, lat.pwsink_default_ms),
            ),
            None => None,
        }
    }
}

/// Every sendspin device's lead fits its type.
pub open spec fn leads_fit(lat: LatencyConfig) -> bool {
    forall|n: Seq<char>| #[trigger] sendspin_latency(lat, n) <= u32::MAX
}

fn delay_or(m: &NameMap<u16>, key: &str, other: u32) -> (r: u32)
    ensures
        r == or_else(m@, key@, other),
{
    match m.get(key) {
        Some(ms) => *ms as u32,
        None => other,
    }
}

/// The buffering that a node adds, as far as it is configured.
pub fn node_latency_ms(node_name: &str, lat: &LatencyConfig) -> (r: Option<u32>)
    requires
        leads_fit(*lat),
    ensures
        r == latency_of(*lat, node_name@),
{
    match lat.source_latencies.get(node_name) {
        Some(ms) => {
            return Some(*ms);
        },
        None => {},
    }
    match OutputKind::of(node_name) {
        Some(OutputKind::Sendspin) => {
            assert(sendspin_latency(*lat, node_name@) <= u32::MAX);
            let extra: u32 = delay_or(&lat.sendspin_delays, node_name, 0);
            Some(lat.group_lead_ms + extra)
        },
        Some(OutputKind::Airplay2) => Some(
            delay_or(&lat.ap2_delays, node_name, lat.ap2_default_ms),
        ),
        Some(OutputKind::PwSink) => Some(
            delay_or(&lat.pwsink_jitters, node_name, lat.pwsink_default_ms),
        ),
        None => None,
    }
}

/// A configured source.
pub struct SourceEntry {
    pub node_name: String,
    pub label: String,
    /// Its input buffer.
    pub latency_ms: u32,
}

/// The last of the first `n` entries for a node.
pub open spec fn entry_for(entries: Seq<SourceEntry>, n: int, name: Seq<char>) -> Option<
    SourceEntry,
>
    decreases
            if n > 0 {
                n
            } else {
                0
            },
{
    if n <= 0 {
        None
    } else if entries[n - 1].node_name@ == name {
        Some(entries[n - 1])
    } else {
        entry_for(entries, n - 1, name)
    }
}

/// The input buffers and the labels of the configured sources, by node. Where a node
/// is listed twice the later entry counts.
pub fn source_settings(entries: &Vec<SourceEntry>) -> (r: (NameMap<u32>, NameMap<String>))
    ensures
        forall|k: Seq<char>| #[trigger]
            r.0@.contains_key(k) <==> entry_for(entries@, entries@.len() as int, k) is Some,
        forall|k: Seq<char>| #[trigger]
            r.0@.contains_key(k) ==> r.0@[k] == entry_for(
                entries@,
                entries@.len() as int,
                k,
            )->0.latency_ms,
        r.1@.dom() == r.0@.dom(),
        forall|k: Seq<char>| #[trigger]
            r.1@.contains_key(k) ==> r.1@[k]@ == entry_for(
                entries@,
                entries@.len() as int,
                k,
            )->0.label@,
{
    let mut latencies: NameMap<u32> = NameMap::new();
    let mut labels: NameMap<String> = NameMap::new();
    let mut i: usize = 0;
    while i < entries.len()
        invariant
            i <= entries@.len(),
            forall|k: Seq<char>| #[trigger]
                latencies@.contains_key(k) <==> entry_for(entries@, i as int, k) is Some,
            forall|k: Seq<char>| #[trigger]
                latencies@.contains_key(k) ==> latencies@[k] == entry_for(
                    entries@,
                    i as int,
                    k,
                )->0.latency_ms,
            forall|k: Seq<char>| #[trigger]
                labels@.contains_key(k) <==> entry_for(entries@, i as int, k) is Some,
            forall|k: Seq<char>| #[trigger]
                labels@.contains_key(k) ==> labels@[k]@ == entry_for(
                    entries@,
                    i as int,
                    k,
                )->0.label@,
        decreases entries.len() - i,
    {
        let e = &entries[i];
        latencies.insert(e.node_name.clone(), e.latency_ms);
        labels.insert(e.node_name.clone(), e.label.clone());
        i += 1;
    }
    assert(labels@.dom() =~= latencies@.dom());
    (latencies, labels)
}

/// One source or output of the matrix.
pub struct RoutingNode {
    pub node_name: String,
    pub display_name: String,
    /// It is in the graph, or can be reached.
    pub present: bool,
    /// Whether a session to this output is up, where it has one.
    pub streaming: Option<bool>,
    pub node_id: Option<u32>,
    /// Configured by hand, as every source is.
    pub configured: bool,
    /// Recent peak, as the bits of a 32-bit float.
    pub peak: u32,
    /// The level, where it is known.
    pub volume: Option<Volume>,
    /// Whether it is muted, where that is known.
    pub muted: Option<bool>,
    pub level_caps: Option<LevelCaps>,
    pub latency_ms: Option<u32>,
    /// Dropped cycles, while they are counted.
    pub xruns: Option<u32>,
    /// Why this output cannot carry audio, where that is known.
    pub last_error: Option<String>,
    /// An alignment run has taken this output.
    pub held: bool,
}

/// The model of a [`RoutingNode`].
pub ghost struct NodeView {
    pub node_name: Seq<char>,
    pub display_name: Seq<char>,
    pub present: bool,
    pub streaming: Option<bool>,
    pub node_id: Option<u32>,
    pub configured: bool,
    pub peak: u32,
    pub volume: Option<Volume>,
    pub muted: Option<bool>,
    pub level_caps: Option<LevelCaps>,
    pub latency_ms: Option<u32>,
    pub xruns: Option<u32>,
    pub last_error: Option<Seq<char>>,
    pub held: bool,
}

impl RoutingNode {
    pub open spec fn view(&self) -> NodeView {
        NodeView {
            node_name: self.node_name@,
            display_name: self.display_name@,
            present: self.present,
            streaming: self.streaming,
            node_id: self.node_id,
            configured: self.configured,
            peak: self.peak,
            volume: self.volume,
            muted: self.muted,
            level_caps: self.level_caps,
            latency_ms: self.latency_ms,
            xruns: self.xruns,
            last_error: opt_view(self.last_error),
            held: self.held,
        }
    }
}

/// The matrix: every source and output that can be routed, and the routes.
pub struct RoutingMatrix {
    pub sources: Vec<RoutingNode>,
    pub outputs: Vec<RoutingNode>,
    pub links: Vec<RoutingLink>,
}

/// Everything the matrix is built from.
pub struct House {
    pub reg: RegistryState,
    pub devices: NameMap<SendspinDevice>,
    pub ap2_devices: NameMap<Ap2Device>,
    /// Connected remote hosts and their labels.
    pub pwsink_hosts: NameMap<String>,
    /// The outputs that were added. Nothing else can be routed.
    pub adopted: NameSet,
    pub source_labels: NameMap<String>,
    /// Names given to outputs; they win over what was discovered.
    pub output_labels: NameMap<String>,
    /// Peaks of the metered sources.
    pub peaks: NameMap<u32>,
    pub intent: Vec<RoutingLink>,
    /// In percent.
    pub sendspin_volumes: NameMap<u8>,
    pub sendspin_mutes: NameMap<bool>,
    pub ap2_volumes: NameMap<u32>,
    pub ap2_mutes: NameMap<bool>,
    pub pwsink_volumes: NameMap<u32>,
    pub pwsink_mutes: NameMap<bool>,
    /// Receivers whose sender is connected.
    pub ap2_connected: NameSet,
    /// Which remote hosts a receiver attached to.
    pub pwsink: PwSinkLiveness,
    /// Why a receiver cannot carry audio.
    pub ap2_errors: NameMap<String>,
    pub lat: LatencyConfig,
    pub xruns: NameMap<u32>,
    /// Outputs that an alignment run has taken.
    pub held: NameSet,
}

/// How an output is called: as the user named it, else as its device calls itself,
/// else by its node name.
pub open spec fn output_label(h: House, name: Seq<char>) -> Seq<char> {
    if h.output_labels@.contains_key(name) {
        h.output_labels@[name]@
    } else if h.devices@.contains_key(name) {
        h.devices@[name].display_name@
    } else if h.ap2_devices@.contains_key(name) {
        h.ap2_devices@[name].display_name@
    } else if h.pwsink_hosts@.contains_key(name) {
        h.pwsink_hosts@[name]@
    } else {
        display_name(name)
    }
}

/// Whether an output is there: its node, its device as far as discovery says, or
/// its host's agent.
pub open spec fn output_present(h: House, name: Seq<char>) -> bool {
    ||| output_id(h.reg, name) is Some
    ||| h.devices@.contains_key(name) && h.devices@[name].present
    ||| h.ap2_devices@.contains_key(name) && h.ap2_devices@[name].present
    ||| h.pwsink_hosts@.contains_key(name)
}

/// The level of an output, where it is known. An unknown level is not made up.
pub open spec fn output_volume(h: House, name: Seq<char>) -> Option<Volume> {
    match kind_of(name) {
        Some(OutputKind::Sendspin) => match lookup(h.sendspin_volumes@, name) {
            Some(v) => Some(Volume::Percent(v)),
            None => None,
        },
        Some(OutputKind::Airplay2) => match lookup(h.ap2_volumes@, name) {
            Some(v) => Some(Volume::Level(v)),
            None => None,
        },
        Some(OutputKind::PwSink) => match lookup(h.pwsink_volumes@, name) {
            Some(v) => Some(Volume::Level(v)),
            None => None,
        },
        None => None,
    }
}

/// Whether an output is muted. The in-band kinds are unmuted until muted; of a
/// remote host it is unknown until its agent says so.
pub open spec fn output_muted(h: House, name: Seq<char>) -> Option<bool> {
    match kind_of(name) {
        Some(OutputKind::Sendspin) => Some(
            h.sendspin_mutes@.contains_key(name) && h.sendspin_mutes@[name],
        ),
        Some(OutputKind::Airplay2) => Some(
            h.ap2_mutes@.contains_key(name) && h.ap2_mutes@[name],
        ),
        Some(OutputKind::PwSink) => lookup(h.pwsink_mutes@, name),
        None => None,
    }
}

/// The row of an output.
pub open spec fn output_row(h: House, name: Seq<char>) -> NodeView {
    NodeView {
        node_name: name,
        display_name: output_label(h, name),
        present: output_present(h, name),
        streaming: dialed_established(
            name,
            h.ap2_connected@,
            crate::targets::is_established(h.pwsink.map@, name),
        ),
        node_id: output_id(h.reg, name),
        configured: false,
        peak: 0,
        volume: output_volume(h, name),
        muted: output_muted(h, name),
        level_caps: caps_of(name, h.pwsink_volumes@, h.pwsink_mutes@),
        latency_ms: latency_of(h.lat, name),
        xruns: lookup(h.xruns@, name),
        last_error: if h.ap2_errors@.contains_key(name) {
            Some(h.ap2_errors@[name]@)
        } else {
            None
        },
        held: h.held@.contains(name),
    }
}

/// The row of a source.
pub open spec fn source_row(h: House, name: Seq<char>) -> NodeView {
    NodeView {
        node_name: name,
        display_name: if h.source_labels@.contains_key(name) {
            h.source_labels@[name]@
        } else {
            name
        },
        present: source_id(h.reg, name) is Some,
        streaming: None,
        node_id: source_id(h.reg, name),
        configured: true,
        peak: if h.peaks@.contains_key(name) {
            h.peaks@[name]
        } else {
            0
        },
        volume: None,
        muted: None,
        level_caps: None,
        latency_ms: latency_of(h.lat, name),
        xruns: lookup(h.xruns@, name),
        last_error: None,
        held: false,
    }
}

/// Whether a source is listed: it is in the graph, or a route to an adopted output
/// starts at it.
pub open spec fn source_listed(h: House, name: Seq<char>) -> bool {
    source_id(h.reg, name) is Some || exists|i: int|
        0 <= i < h.intent@.len() && (#[trigger] h.intent@[i]).source@ == name
            && h.adopted@.contains(h.intent@[i].output@)
}

/// One pair of names comes before another.
pub open spec fn pair_lt(a: Route, b: Route) -> bool {
    lex_lt(a.0, b.0) || (a.0 == b.0 && lex_lt(a.1, b.1))
}

/// A row's place in the listing: by how it is called, then by its node name.
pub open spec fn row_key(n: NodeView) -> Route {
    (n.display_name, n.node_name)
}

/// The rows stand in order, each once.
pub open spec fn rows_sorted(rows: Seq<NodeView>) -> bool {
    forall|i: int, j: int|
        0 <= i < j < rows.len() ==> pair_lt(row_key(#[trigger] rows[i]), row_key(#[trigger] rows[j]))
}

/// The models of rows.
pub open spec fn rows(s: Seq<RoutingNode>) -> Seq<NodeView> {
    s.map_values(|n: RoutingNode| n@)
}

/// The rows are exactly those of the names that `listed` picks, in order.
pub open spec fn lists_exactly(
    rows: Seq<NodeView>,
    listed: spec_fn(Seq<char>) -> bool,
    row: spec_fn(Seq<char>) -> NodeView,
) -> bool {
    &&& rows_sorted(rows)
    &&& forall|i: int|
        0 <= i < rows.len() ==> listed((#[trigger] rows[i]).node_name) && rows[i] == row(
            rows[i].node_name,
        )
    &&& forall|n: Seq<char>| #[trigger] listed(n) ==> rows.contains(row(n))
}

/// The routes stand in order; one that is stored twice stands twice.
pub open spec fn routes_sorted(l: Seq<Route>) -> bool {
    forall|i: int, j: int|
        0 <= i < j < l.len() ==> !pair_lt(#[trigger] l[j], #[trigger] l[i])
}

/// Whether one pair of names comes before another.
pub fn pair_before(a0: &str, a1: &str, b0: &str, b1: &str) -> (r: bool)
    ensures
        r == pair_lt((a0@, a1@), (b0@, b1@)),
{
    comes_before(a0, b0) || (same(a0, b0) && comes_before(a1, b1))
}

proof fn lemma_pair_order(a: Route, b: Route, c: Route)
    ensures
        !pair_lt(a, a),
        pair_lt(a, b) && pair_lt(b, c) ==> pair_lt(a, c),
        a == b || pair_lt(a, b) || pair_lt(b, a),
        pair_lt(a, b) ==> !pair_lt(b, a),
        !pair_lt(b, a) && !pair_lt(c, b) ==> !pair_lt(c, a),
{
    lemma_lex_irreflexive(a.0);
    lemma_lex_irreflexive(a.1);
    lemma_pair_total(a, b);
    lemma_pair_total(b, c);
    lemma_pair_transitive(a, b, c);
    lemma_pair_transitive(c, a, b);
    lemma_pair_transitive(b, c, a);
    lemma_pair_transitive(c, b, a);
    lemma_pair_asymmetric(a, b);
    lemma_pair_asymmetric(b, c);
}

proof fn lemma_pair_total(a: Route, b: Route)
    ensures
        a == b || pair_lt(a, b) || pair_lt(b, a),
{
    lemma_lex_total(a.0, b.0);
    lemma_lex_total(a.1, b.1);
}

proof fn lemma_pair_asymmetric(a: Route, b: Route)
    ensures
        pair_lt(a, b) ==> !pair_lt(b, a),
{
    if pair_lt(a, b) && pair_lt(b, a) {
        lemma_lex_irreflexive(a.0);
        lemma_lex_irreflexive(a.1);
        if lex_lt(a.0, b.0) {
            lemma_lex_asymmetric(a.0, b.0);
        } else {
            lemma_lex_asymmetric(a.1, b.1);
        }
    }
}

proof fn lemma_pair_transitive(a: Route, b: Route, c: Route)
    ensures
        pair_lt(a, b) && pair_lt(b, c) ==> pair_lt(a, c),
{
    if pair_lt(a, b) && pair_lt(b, c) {
        if lex_lt(a.0, b.0) {
            if lex_lt(b.0, c.0) {
                lemma_lex_transitive(a.0, b.0, c.0);
            }
        } else if !lex_lt(b.0, c.0) {
            lemma_lex_transitive(a.1, b.1, c.1);
        }
    }
}

fn insert_row(list: &mut Vec<RoutingNode>, node: RoutingNode)
    requires
        rows_sorted(rows(old(list)@)),
        forall|i: int|
            0 <= i < old(list)@.len() ==> (#[trigger] old(list)@[i]).node_name@ != node.node_name@,
    ensures
        rows_sorted(rows(final(list)@)),
        forall|n: NodeView| #[trigger]
            rows(final(list)@).contains(n) <==> rows(old(list)@).contains(n) || n == node@,
        final(list)@.len() == old(list)@.len() + 1,
{
    let ghost before = rows(list@);
    let mut at: usize = 0;
    while at < list.len() && pair_before(
        &list[at].display_name,
        &list[at].node_name,
        &node.display_name,
        &node.node_name,
    )
        invariant
            at <= list@.len(),
            before == rows(list@),
            forall|j: int| 0 <= j < at ==> pair_lt(row_key(#[trigger] before[j]), row_key(node@)),
        decreases list.len() - at,
    {
        assert(before[at as int] == list@[at as int]@);
        at += 1;
    }
    proof {
        assert forall|j: int| at <= j < before.len() implies pair_lt(
            row_key(node@),
            row_key(#[trigger] before[j]),
        ) by {
            assert(before[at as int] == list@[at as int]@);
            lemma_pair_total(row_key(before[at as int]), row_key(node@));
            if j > at {
                lemma_pair_transitive(
                    row_key(node@),
                    row_key(before[at as int]),
                    row_key(before[j]),
                );
            }
        }
    }
    list.insert(at, node);
    proof {
        let after = rows(list@);
        assert(after =~= before.insert(at as int, node@));
        assert forall|i: int, j: int| 0 <= i < j < after.len() implies pair_lt(
            row_key(#[trigger] after[i]),
            row_key(#[trigger] after[j]),
        ) by {
            if i < at && j > at {
                assert(after[i] == before[i] && after[j] == before[j - 1]);
            } else if i == at {
                assert(after[j] == before[j - 1]);
            } else if i > at {
                assert(after[i] == before[i - 1] && after[j] == before[j - 1]);
            } else if j == at {
                assert(after[i] == before[i]);
            } else {
                assert(after[i] == before[i] && after[j] == before[j]);
            }
        }
        assert forall|n: NodeView| #[trigger] after.contains(n) <==> before.contains(n) || n
            == node@ by {
            if before.contains(n) {
                let k = choose|k: int| 0 <= k < before.len() && before[k] == n;
                if k < at {
                    assert(after[k] == n);
                } else {
                    assert(after[k + 1] == n);
                }
            }
            assert(after[at as int] == node@);
            if after.contains(n) {
                let k = choose|k: int| 0 <= k < after.len() && after[k] == n;
                if k < at {
                    assert(before[k] == n);
                } else if k > at {
                    assert(before[k - 1] == n);
                }
            }
        }
    }
}

/// Putting a pair where it belongs keeps the order and adds just that pair.
pub proof fn lemma_insert_sorted(before: Seq<Route>, at: int, x: Route)
    requires
        routes_sorted(before),
        0 <= at <= before.len(),
        forall|j: int| 0 <= j < at ==> !pair_lt(x, #[trigger] before[j]),
        forall|j: int| at <= j < before.len() ==> !pair_lt(#[trigger] before[j], x),
    ensures
        routes_sorted(before.insert(at, x)),
        before.insert(at, x).to_multiset() == before.to_multiset().insert(x),
{
    let after = before.insert(at, x);
    assert forall|i: int, j: int| 0 <= i < j < after.len() implies !pair_lt(
        #[trigger] after[j],
        #[trigger] after[i],
    ) by {
        if i < at && j > at {
            assert(after[i] == before[i] && after[j] == before[j - 1]);
        } else if i == at {
            assert(after[j] == before[j - 1]);
        } else if i > at {
            assert(after[i] == before[i - 1] && after[j] == before[j - 1]);
        } else if j == at {
            assert(after[i] == before[i]);
        } else {
            assert(after[i] == before[i] && after[j] == before[j]);
        }
    }
    assert(after.remove(at) =~= before);
    after.to_multiset_ensures();
    before.to_multiset_ensures();
    assert(before.to_multiset() =~= after.to_multiset().remove(x));
    assert(after.contains(after[at]));
    assert(after.to_multiset() =~= before.to_multiset().insert(x));
}

/// Where `x` comes before the pair at a place, it comes before all behind it too.
pub proof fn lemma_rest_stays_behind(before: Seq<Route>, at: int, x: Route)
    requires
        routes_sorted(before),
        0 <= at <= before.len(),
        at < before.len() ==> pair_lt(x, before[at]),
    ensures
        forall|j: int| at <= j < before.len() ==> !pair_lt(#[trigger] before[j], x),
{
    assert forall|j: int| at <= j < before.len() implies !pair_lt(#[trigger] before[j], x) by {
        lemma_pair_order(x, before[at], before[j]);
        lemma_pair_asymmetric(x, before[at]);
    }
}

fn insert_link(list: &mut Vec<RoutingLink>, link: RoutingLink)
    requires
        routes_sorted(routes(old(list)@)),
    ensures
        routes_sorted(routes(final(list)@)),
        routes(final(list)@).to_multiset() == routes(old(list)@).to_multiset().insert(link@),
{
    let ghost before = routes(list@);
    let mut at: usize = 0;
    while at < list.len() && !pair_before(
        &link.source,
        &link.output,
        &list[at].source,
        &list[at].output,
    )
        invariant
            at <= list@.len(),
            before == routes(list@),
            forall|j: int| 0 <= j < at ==> !pair_lt(link@, #[trigger] before[j]),
        decreases list.len() - at,
    {
        assert(before[at as int] == list@[at as int]@);
        at += 1;
    }
    proof {
        if at < before.len() {
            assert(before[at as int] == list@[at as int]@);
        }
        lemma_rest_stays_behind(before, at as int, link@);
    }
    list.insert(at, link);
    proof {
        assert(routes(list@) =~= before.insert(at as int, link@));
        lemma_insert_sorted(before, at as int, link@);
    }
}

proof fn lemma_newest_some(nodes: Seq<NodeInfo>, p: spec_fn(NodeInfo) -> bool)
    ensures
        newest(nodes, p) is Some <==> exists|i: int| 0 <= i < nodes.len() && p(#[trigger] nodes[i]),
    decreases nodes.len(),
{
    if nodes.len() > 0 {
        let rest = nodes.drop_last();
        lemma_newest_some(rest, p);
        if exists|i: int| 0 <= i < nodes.len() && p(#[trigger] nodes[i]) {
            let i = choose|i: int| 0 <= i < nodes.len() && p(#[trigger] nodes[i]);
            if i < rest.len() {
                assert(p(rest[i]));
            }
        }
        if newest(nodes, p) is Some {
            if newest(rest, p) is Some {
                let i = choose|i: int| 0 <= i < rest.len() && p(#[trigger] rest[i]);
                assert(p(nodes[i]));
            } else {
                assert(p(nodes[nodes.len() - 1]));
            }
        }
    }
}

fn label_at(m: &NameMap<String>, key: &str) -> (r: Option<String>)
    ensures
        opt_view(r) == if m@.contains_key(key@) {
            Some(m@[key@]@)
        } else {
            None
        },
{
    match m.get(key) {
        Some(s) => Some(s.clone()),
        None => None,
    }
}

fn number_at(m: &NameMap<u32>, key: &str) -> (r: Option<u32>)
    ensures
        r == lookup(m@, key@),
{
    match m.get(key) {
        Some(n) => Some(*n),
        None => None,
    }
}

fn flag_at(m: &NameMap<bool>, key: &str) -> (r: Option<bool>)
    ensures
        r == lookup(m@, key@),
{
    match m.get(key) {
        Some(n) => Some(*n),
        None => None,
    }
}

fn label_of_output(h: &House, name: &str) -> (r: String)
    ensures
        r@ == output_label(*h, name@),
{
    match label_at(&h.output_labels, name) {
        Some(label) => {
            return label;
        },
        None => {},
    }
    match h.devices.get(name) {
        Some(d) => {
            return d.display_name.clone();
        },
        None => {},
    }
    match h.ap2_devices.get(name) {
        Some(d) => {
            return d.display_name.clone();
        },
        None => {},
    }
    match label_at(&h.pwsink_hosts, name) {
        Some(label) => label,
        None => output_display_name(name),
    }
}

fn present_output(h: &House, name: &str, node_id: Option<u32>) -> (r: bool)
    requires
        node_id == output_id(h.reg, name@),
    ensures
        r == output_present(*h, name@),
{
    let device = match h.devices.get(name) {
        Some(d) => d.present,
        None => false,
    };
    let ap2 = match h.ap2_devices.get(name) {
        Some(d) => d.present,
        None => false,
    };
    node_id.is_some() || device || ap2 || h.pwsink_hosts.contains_key(name)
}

fn volume_of_output(h: &House, name: &str) -> (r: Option<Volume>)
    ensures
        r == output_volume(*h, name@),
{
    match OutputKind::of(name) {
        Some(OutputKind::Sendspin) => match h.sendspin_volumes.get(name) {
            Some(v) => Some(Volume::Percent(*v)),
            None => None,
        },
        Some(OutputKind::Airplay2) => match number_at(&h.ap2_volumes, name) {
            Some(v) => Some(Volume::Level(v)),
            None => None,
        },
        Some(OutputKind::PwSink) => match number_at(&h.pwsink_volumes, name) {
            Some(v) => Some(Volume::Level(v)),
            None => None,
        },
        None => None,
    }
}

fn mute_of_output(h: &House, name: &str) -> (r: Option<bool>)
    ensures
        r == output_muted(*h, name@),
{
    match OutputKind::of(name) {
        Some(OutputKind::Sendspin) => match flag_at(&h.sendspin_mutes, name) {
            Some(m) => Some(m),
            None => Some(false),
        },
        Some(OutputKind::Airplay2) => match flag_at(&h.ap2_mutes, name) {
            Some(m) => Some(m),
            None => Some(false),
        },
        Some(OutputKind::PwSink) => flag_at(&h.pwsink_mutes, name),
        None => None,
    }
}

fn row_of_output(h: &House, name: &str) -> (r: RoutingNode)
    requires
        leads_fit(h.lat),
    ensures
        r@ == output_row(*h, name@),
{
    let node_id = output_id_for(&h.reg, name);
    RoutingNode {
        node_name: name.to_string(),
        display_name: label_of_output(h, name),
        present: present_output(h, name, node_id),
        streaming: dialed_session_established(name, &h.ap2_connected, &h.pwsink),
        node_id,
        configured: false,
        peak: 0,
        volume: volume_of_output(h, name),
        muted: mute_of_output(h, name),
        level_caps: level_caps(name, &h.pwsink_volumes, &h.pwsink_mutes),
        latency_ms: node_latency_ms(name, &h.lat),
        xruns: number_at(&h.xruns, name),
        last_error: label_at(&h.ap2_errors, name),
        held: h.held.contains(name),
    }
}

fn row_of_source(h: &House, name: &str) -> (r: RoutingNode)
    requires
        leads_fit(h.lat),
    ensures
        r@ == source_row(*h, name@),
{
    let node_id = source_id_for(&h.reg, name);
    let display_name = match label_at(&h.source_labels, name) {
        Some(label) => label,
        None => name.to_string(),
    };
    let peak: u32 = match number_at(&h.peaks, name) {
        Some(p) => p,
        None => 0,
    };
    RoutingNode {
        node_name: name.to_string(),
        display_name,
        present: node_id.is_some(),
        streaming: None,
        node_id,
        configured: true,
        peak,
        volume: None,
        muted: None,
        level_caps: None,
        latency_ms: node_latency_ms(name, &h.lat),
        xruns: number_at(&h.xruns, name),
        last_error: None,
        held: false,
    }
}

fn listed_sources(h: &House) -> (r: NameSet)
    ensures
        forall|n: Seq<char>| #[trigger] r@.contains(n) <==> source_listed(*h, n),
{
    let mut out = NameSet::new();
    let n: usize = h.reg.nodes.len();
    let ghost nodes = h.reg.nodes.values();
    let mut i: usize = 0;
    while i < n
        invariant
            i <= n,
            n == h.reg.nodes.values().len(),
            n == h.reg.nodes.ids().len(),
            nodes == h.reg.nodes.values(),
            forall|s: Seq<char>| #[trigger]
                out@.contains(s) <==> exists|j: int|
                    0 <= j < i && (#[trigger] nodes[j]).node_name@ == s && is_source(
                        h.reg,
                        nodes[j],
                    ),
        decreases n - i,
    {
        let node = h.reg.nodes.value_at(i);
        if is_source_node(&h.reg, node) {
            out.insert(node.node_name.clone());
        }
        i += 1;
    }
    proof {
        assert forall|s: Seq<char>| #[trigger] out@.contains(s) <==> source_id(
            h.reg,
            s,
        ) is Some by {
            let p = |n: NodeInfo| n.node_name@ == s && is_source(h.reg, n);
            lemma_newest_some(nodes, p);
            if out@.contains(s) {
                let j = choose|j: int|
                    0 <= j < n && (#[trigger] nodes[j]).node_name@ == s && is_source(
                        h.reg,
                        nodes[j],
                    );
                assert(p(nodes[j]));
            }
            if exists|j: int| 0 <= j < nodes.len() && p(#[trigger] nodes[j]) {
                let j = choose|j: int| 0 <= j < nodes.len() && p(#[trigger] nodes[j]);
                assert(nodes[j].node_name@ == s && is_source(h.reg, nodes[j]));
            }
        }
    }
    let ghost live = out@;
    let mut k: usize = 0;
    while k < h.intent.len()
        invariant
            k <= h.intent@.len(),
            forall|s: Seq<char>| #[trigger]
                live.contains(s) <==> source_id(h.reg, s) is Some,
            forall|s: Seq<char>| #[trigger]
                out@.contains(s) <==> live.contains(s) || exists|j: int|
                    0 <= j < k && (#[trigger] h.intent@[j]).source@ == s && h.adopted@.contains(
                        h.intent@[j].output@,
                    ),
        decreases h.intent.len() - k,
    {
        if h.adopted.contains(&h.intent[k].output) {
            out.insert(h.intent[k].source.clone());
        }
        k += 1;
    }
    out
}

/// The matrix. An output stands in it exactly when it was adopted, whether or not
/// it is there; so do the routes to it, and the sources those start at beside the
/// ones that are in the graph.
pub fn build_matrix(h: &House) -> (r: RoutingMatrix)
    requires
        leads_fit(h.lat),
    ensures
        lists_exactly(
            rows(r.outputs@),
            |n: Seq<char>| h.adopted@.contains(n),
            |n: Seq<char>| output_row(*h, n),
        ),
        lists_exactly(
            rows(r.sources@),
            |n: Seq<char>| source_listed(*h, n),
            |n: Seq<char>| source_row(*h, n),
        ),
        routes_sorted(routes(r.links@)),
        routes(r.links@).to_multiset() == routes_to(routes(h.intent@), h.adopted@).to_multiset(),
{
    let outputs = output_rows(h);
    let sources = source_rows(h);
    let kept = links_to(&h.intent, &h.adopted);
    let ghost all = routes(kept@);
    let mut links: Vec<RoutingLink> = Vec::new();
    let mut i: usize = 0;
    proof {
        assert(routes(links@) =~= all.take(0));
    }
    while i < kept.len()
        invariant
            i <= kept@.len(),
            all == routes(kept@),
            routes_sorted(routes(links@)),
            routes(links@).to_multiset() == all.take(i as int).to_multiset(),
        decreases kept.len() - i,
    {
        insert_link(&mut links, kept[i].copy());
        proof {
            assert(all.take(i + 1) =~= all.take(i as int).push(all[i as int]));
            all.take(i as int).to_multiset_ensures();
        }
        i += 1;
    }
    assert(all.take(i as int) =~= all);
    RoutingMatrix { sources, outputs, links }
}

fn output_rows(h: &House) -> (r: Vec<RoutingNode>)
    requires
        leads_fit(h.lat),
    ensures
        lists_exactly(
            rows(r@),
            |n: Seq<char>| h.adopted@.contains(n),
            |n: Seq<char>| output_row(*h, n),
        ),
{
    let mut out: Vec<RoutingNode> = Vec::new();
    let n: usize = h.adopted.len();
    let ghost names = h.adopted.names();
    let mut i: usize = 0;
    while i < n
        invariant
            i <= n,
            n == h.adopted.names().len(),
            names == h.adopted.names(),
            sorted_names(names),
            leads_fit(h.lat),
            rows_sorted(rows(out@)),
            forall|v: NodeView| #[trigger]
                rows(out@).contains(v) <==> exists|j: int|
                    0 <= j < i && v == output_row(*h, #[trigger] names[j]),
        decreases n - i,
    {
        let row = row_of_output(h, h.adopted.at(i));
        proof {
            assert forall|k: int| 0 <= k < out@.len() implies (#[trigger] out@[k]).node_name@
                != row.node_name@ by {
                assert(rows(out@)[k] == out@[k]@);
                assert(rows(out@).contains(out@[k]@));
                let j = choose|j: int|
                    0 <= j < i && out@[k]@ == output_row(*h, #[trigger] names[j]);
                if names[j] == names[i as int] {
                    lemma_sorted_unique(names, j, i as int);
                }
            }
        }
        let ghost before = rows(out@);
        insert_row(&mut out, row);
        proof {
            assert forall|v: NodeView| #[trigger] rows(out@).contains(v) <==> exists|j: int|
                0 <= j < i + 1 && v == output_row(*h, #[trigger] names[j]) by {
                if before.contains(v) {
                    let j = choose|j: int| 0 <= j < i && v == output_row(*h, #[trigger] names[j]);
                    assert(0 <= j < i + 1);
                }
                assert(row@ == output_row(*h, names[i as int]));
            }
        }
        i += 1;
    }
    proof {
        let listed = |n: Seq<char>| h.adopted@.contains(n);
        let row = |n: Seq<char>| output_row(*h, n);
        assert forall|k: int| 0 <= k < rows(out@).len() implies listed(
            (#[trigger] rows(out@)[k]).node_name,
        ) && rows(out@)[k] == row(rows(out@)[k].node_name) by {
            assert(rows(out@).contains(rows(out@)[k]));
            let j = choose|j: int|
                0 <= j < n && rows(out@)[k] == output_row(*h, #[trigger] names[j]);
            assert(names.contains(names[j]));
        }
        assert forall|m: Seq<char>| #[trigger] listed(m) implies rows(out@).contains(row(m)) by {
            assert(names.contains(m));
            let j = choose|j: int| 0 <= j < names.len() && names[j] == m;
            assert(row(m) == output_row(*h, names[j]));
        }
    }
    out
}

fn source_rows(h: &House) -> (r: Vec<RoutingNode>)
    requires
        leads_fit(h.lat),
    ensures
        lists_exactly(
            rows(r@),
            |n: Seq<char>| source_listed(*h, n),
            |n: Seq<char>| source_row(*h, n),
        ),
{
    let listed_names = listed_sources(h);
    let mut out: Vec<RoutingNode> = Vec::new();
    let n: usize = listed_names.len();
    let ghost names = listed_names.names();
    let mut i: usize = 0;
    while i < n
        invariant
            i <= n,
            n == listed_names.names().len(),
            names == listed_names.names(),
            sorted_names(names),
            leads_fit(h.lat),
            rows_sorted(rows(out@)),
            forall|v: NodeView| #[trigger]
                rows(out@).contains(v) <==> exists|j: int|
                    0 <= j < i && v == source_row(*h, #[trigger] names[j]),
        decreases n - i,
    {
        let row = row_of_source(h, listed_names.at(i));
        proof {
            assert forall|k: int| 0 <= k < out@.len() implies (#[trigger] out@[k]).node_name@
                != row.node_name@ by {
                assert(rows(out@)[k] == out@[k]@);
                assert(rows(out@).contains(out@[k]@));
                let j = choose|j: int|
                    0 <= j < i && out@[k]@ == source_row(*h, #[trigger] names[j]);
                if names[j] == names[i as int] {
                    lemma_sorted_unique(names, j, i as int);
                }
            }
        }
        let ghost before = rows(out@);
        insert_row(&mut out, row);
        proof {
            assert forall|v: NodeView| #[trigger] rows(out@).contains(v) <==> exists|j: int|
                0 <= j < i + 1 && v == source_row(*h, #[trigger] names[j]) by {
                if before.contains(v) {
                    let j = choose|j: int| 0 <= j < i && v == source_row(*h, #[trigger] names[j]);
                    assert(0 <= j < i + 1);
                }
                assert(row@ == source_row(*h, names[i as int]));
            }
        }
        i += 1;
    }
    proof {
        let listed = |n: Seq<char>| source_listed(*h, n);
        let row = |n: Seq<char>| source_row(*h, n);
        assert forall|k: int| 0 <= k < rows(out@).len() implies listed(
            (#[trigger] rows(out@)[k]).node_name,
        ) && rows(out@)[k] == row(rows(out@)[k].node_name) by {
            assert(rows(out@).contains(rows(out@)[k]));
            let j = choose|j: int|
                0 <= j < n && rows(out@)[k] == source_row(*h, #[trigger] names[j]);
            assert(names.contains(names[j]));
            assert(listed_names@.contains(names[j]));
        }
        assert forall|m: Seq<char>| #[trigger] listed(m) implies rows(out@).contains(row(m)) by {
            assert(listed_names@.contains(m));
            assert(names.contains(m));
            let j = choose|j: int| 0 <= j < names.len() && names[j] == m;
            assert(row(m) == source_row(*h, names[j]));
        }
    }
    out
}

// ---- laws of the matrix ----------------------------------------------------------

/// What is listed decides the listing: there is one way to list it.
pub proof fn law_listing_is_determined(
    a: Seq<NodeView>,
    b: Seq<NodeView>,
    listed: spec_fn(Seq<char>) -> bool,
    row: spec_fn(Seq<char>) -> NodeView,
)
    requires
        lists_exactly(a, listed, row),
        lists_exactly(b, listed, row),
    ensures
        a == b,
{
    assert forall|n: NodeView| #[trigger] a.contains(n) implies b.contains(n) by {
        let i = choose|i: int| 0 <= i < a.len() && a[i] == n;
        assert(listed(a[i].node_name));
    }
    assert forall|n: NodeView| #[trigger] b.contains(n) implies a.contains(n) by {
        let i = choose|i: int| 0 <= i < b.len() && b[i] == n;
        assert(listed(b[i].node_name));
    }
    lemma_sorted_rows_same(a, b);
}

proof fn lemma_sorted_rows_same(a: Seq<NodeView>, b: Seq<NodeView>)
    requires
        rows_sorted(a),
        rows_sorted(b),
        forall|n: NodeView| #[trigger] a.contains(n) <==> b.contains(n),
    ensures
        a == b,
    decreases a.len(),
{
    if a.len() == 0 {
        if b.len() > 0 {
            assert(b.contains(b[0]));
            assert(a.contains(b[0]));
        }
        assert(a =~= b);
    } else {
        assert(a.contains(a.last()));
        assert(b.contains(a.last()));
        let k = choose|k: int| 0 <= k < b.len() && b[k] == a.last();
        assert(b.contains(b.last()));
        assert(a.contains(b.last()));
        let m = choose|m: int| 0 <= m < a.len() && a[m] == b.last();
        if k < b.len() - 1 {
            assert(pair_lt(row_key(b[k]), row_key(b[b.len() - 1])));
            if m < a.len() - 1 {
                assert(pair_lt(row_key(a[m]), row_key(a[a.len() - 1])));
            }
            lemma_pair_asymmetric(row_key(a.last()), row_key(b.last()));
            lemma_pair_order(row_key(a.last()), row_key(a.last()), row_key(a.last()));
        }
        assert(a.last() == b.last());
        let a1 = a.drop_last();
        let b1 = b.drop_last();
        assert forall|n: NodeView| #[trigger] a1.contains(n) implies b1.contains(n) by {
            let i = choose|i: int| 0 <= i < a1.len() && a1[i] == n;
            assert(a[i] == n);
            assert(a.contains(n));
            let j = choose|j: int| 0 <= j < b.len() && b[j] == n;
            if j == b.len() - 1 {
                assert(pair_lt(row_key(a[i]), row_key(a[a.len() - 1])));
                lemma_pair_order(row_key(n), row_key(n), row_key(n));
            }
            assert(b1[j] == n);
        }
        assert forall|n: NodeView| #[trigger] b1.contains(n) implies a1.contains(n) by {
            let i = choose|i: int| 0 <= i < b1.len() && b1[i] == n;
            assert(b[i] == n);
            assert(b.contains(n));
            assert(a.contains(n));
            let j = choose|j: int| 0 <= j < a.len() && a[j] == n;
            if j == a.len() - 1 {
                assert(pair_lt(row_key(b[i]), row_key(b[b.len() - 1])));
                lemma_pair_order(row_key(n), row_key(n), row_key(n));
            }
            assert(a1[j] == n);
        }
        lemma_sorted_rows_same(a1, b1);
        assert(a =~= a1.push(a.last()));
        assert(b =~= b1.push(b.last()));
    }
}

/// A route is shown exactly when it is stored and its output was adopted: routes to
/// other outputs stay stored, and come back when their output is added.
pub proof fn law_adoption_gates_routes(intent: Seq<Route>, adopted: Set<Seq<char>>, l: Route)
    ensures
        routes_to(intent, adopted).contains(l) <==> intent.contains(l) && adopted.contains(l.1),
{
    let keep = |l: Route| adopted.contains(l.1);
    broadcast use vstd::seq_lib::group_filter_ensures;

    if intent.contains(l) && adopted.contains(l.1) {
        let i = choose|i: int| 0 <= i < intent.len() && intent[i] == l;
        assert(keep(intent[i]));
    }
    if routes_to(intent, adopted).contains(l) {
        let f = intent.filter(keep);
        let i = choose|i: int| 0 <= i < f.len() && f[i] == l;
        assert(keep(f[i]));
        lemma_filter_is_part(intent, keep, l);
    }
}

/// What is left by a filter was there.
pub proof fn lemma_filter_is_part(s: Seq<Route>, keep: spec_fn(Route) -> bool, l: Route)
    requires
        s.filter(keep).contains(l),
    ensures
        s.contains(l),
    decreases s.len(),
{
    reveal(Seq::filter);
    if s.len() > 0 {
        let f = s.filter(keep);
        let rest = s.drop_last().filter(keep);
        let i = choose|i: int| 0 <= i < f.len() && f[i] == l;
        if i < rest.len() {
            assert(rest[i] == l);
            lemma_filter_is_part(s.drop_last(), keep, l);
            let j = choose|j: int| 0 <= j < s.len() - 1 && s.drop_last()[j] == l;
            assert(s[j] == l);
        } else {
            assert(s[s.len() - 1] == l);
        }
    }
}

/// Every output of a known kind states its knobs, and an in-band one has both
/// before any level is known; a source states none, has no session and is never
/// taken for an alignment.
pub proof fn law_rows_state_what_applies(h: House, name: Seq<char>)
    ensures
        kind_of(name) is Some ==> output_row(h, name).level_caps is Some,
        kind_of(name) == Some(OutputKind::Sendspin) || kind_of(name) == Some(OutputKind::Airplay2)
            ==> output_row(h, name).level_caps == Some(LevelCaps { volume: true, mute: true }),
        source_row(h, name).level_caps is None,
        source_row(h, name).streaming is None,
        !source_row(h, name).held,
        kind_of(name) == Some(OutputKind::Sendspin) ==> output_row(h, name).streaming is None,
{
    if kind_of(name) == Some(OutputKind::Sendspin) {
        crate::names::lemma_kinds_disjoint(name);
        assert(!kind_prefix(OutputKind::Airplay2).is_prefix_of(name));
        assert(!kind_prefix(OutputKind::PwSink).is_prefix_of(name));
    }
}

/// Some node of the graph is an output node of this name.
pub open spec fn has_output_node(reg: RegistryState, name: Seq<char>) -> bool {
    SENDSPIN_NODE_PREFIX@.is_prefix_of(name) && exists|i: int|
        0 <= i < reg.nodes.values().len() && (#[trigger] reg.nodes.values()[i]).node_name@ == name
}

/// Node `i` of the graph is a source: it has a port that audio leaves by, and is no
/// output node.
pub open spec fn is_source_at(reg: RegistryState, i: int) -> bool {
    0 <= i < reg.nodes.values().len() && !SENDSPIN_NODE_PREFIX@.is_prefix_of(
        reg.nodes.values()[i].node_name@,
    ) && exists|j: int|
        #[trigger] leaves_by(reg.ports.values(), j, reg.nodes.values()[i].node_id, false)
}

/// Each adopted output has one row in the matrix, and nothing else has.
pub proof fn law_adopted_outputs_have_one_row_each(
    h: House,
    outputs: Seq<NodeView>,
    name: Seq<char>,
) -> (at: int)
    requires
        lists_exactly(
            outputs,
            |n: Seq<char>| h.adopted@.contains(n),
            |n: Seq<char>| output_row(h, n),
        ),
    ensures
        h.adopted@.contains(name) ==> 0 <= at < outputs.len() && outputs[at].node_name == name
            && outputs[at] == output_row(h, name),
        forall|i: int|
            0 <= i < outputs.len() && (#[trigger] outputs[i]).node_name == name ==> i == at
                && h.adopted@.contains(name),
{
    let listed = |n: Seq<char>| h.adopted@.contains(n);
    let row = |n: Seq<char>| output_row(h, n);
    assert forall|i: int, j: int|
        0 <= i < outputs.len() && 0 <= j < outputs.len() && (#[trigger] outputs[i]).node_name
            == name && (#[trigger] outputs[j]).node_name == name implies i == j by {
        assert(outputs[i] == row(name) && outputs[j] == row(name));
        lemma_pair_order(row_key(outputs[i]), row_key(outputs[j]), row_key(outputs[i]));
        if i < j {
            assert(pair_lt(row_key(outputs[i]), row_key(outputs[j])));
        }
        if j < i {
            assert(pair_lt(row_key(outputs[j]), row_key(outputs[i])));
        }
    }
    if h.adopted@.contains(name) {
        assert(listed(name));
        assert(outputs.contains(row(name)));
        choose|i: int| 0 <= i < outputs.len() && outputs[i] == row(name)
    } else {
        assert forall|i: int|
            0 <= i < outputs.len() && (#[trigger] outputs[i]).node_name == name implies false by {
            assert(listed(outputs[i].node_name));
        }
        0
    }
}

/// An adopted output shows as present where it can be reached: its node is in the
/// graph, its sendspin device or AirPlay receiver is known and online, or its
/// host's agent is connected. Where none of these holds it shows as absent.
pub proof fn law_reachable_outputs_show_as_present(
    h: House,
    outputs: Seq<NodeView>,
    i: int,
)
    requires
        lists_exactly(
            outputs,
            |n: Seq<char>| h.adopted@.contains(n),
            |n: Seq<char>| output_row(h, n),
        ),
        0 <= i < outputs.len(),
    ensures
        ({
            let name = outputs[i].node_name;
            &&& has_output_node(h.reg, name) ==> outputs[i].present
            &&& h.devices@.contains_key(name) && h.devices@[name].present ==> outputs[i].present
            &&& h.ap2_devices@.contains_key(name) && h.ap2_devices@[name].present
                ==> outputs[i].present
            &&& h.pwsink_hosts@.contains_key(name) ==> outputs[i].present
            &&& outputs[i].present ==> has_output_node(h.reg, name) || (h.devices@.contains_key(
                name,
            ) && h.devices@[name].present) || (h.ap2_devices@.contains_key(name)
                && h.ap2_devices@[name].present) || h.pwsink_hosts@.contains_key(name)
            &&& outputs[i].node_id is Some <==> has_output_node(h.reg, name)
            &&& outputs[i].node_id is Some ==> exists|j: int|
                0 <= j < h.reg.nodes.values().len() && (
                #[trigger] h.reg.nodes.values()[j]).node_name@ == name
                    && h.reg.nodes.values()[j].node_id == outputs[i].node_id->0
            &&& forall|j: int|
                0 <= j < h.reg.nodes.values().len() && outputs[i].node_id is Some && (
                #[trigger] h.reg.nodes.values()[j]).node_name@ == name
                    ==> h.reg.nodes.values()[j].node_id <= outputs[i].node_id->0
        }),
{
    let name = outputs[i].node_name;
    let nodes = h.reg.nodes.values();
    let p = |n: NodeInfo| n.node_name@ == name && output_node(name);
    lemma_newest(nodes, p);
    lemma_newest_alike(nodes);
    assert(output_id(h.reg, name) == newest(nodes, p));
    assert(outputs[i] == output_row(h, name));
    if has_output_node(h.reg, name) {
        let j = choose|j: int| 0 <= j < nodes.len() && (#[trigger] nodes[j]).node_name@ == name;
        assert(p(nodes[j]));
    }
    if output_id(h.reg, name) is Some {
        let j = choose|j: int|
            0 <= j < nodes.len() && p(#[trigger] nodes[j]) && nodes[j].node_id == newest(
                nodes,
                p,
            )->0;
        assert(nodes[j].node_name@ == name);
        assert forall|j: int| 0 <= j < nodes.len() && (#[trigger] nodes[j]).node_name@ == name implies
            nodes[j].node_id <= output_id(h.reg, name)->0 by {
            assert(p(nodes[j]));
        }
    }
}

/// An output is shown under the name it was given; without one, under that of its
/// device, receiver or host.
pub proof fn law_given_names_win(h: House, outputs: Seq<NodeView>, i: int)
    requires
        lists_exactly(
            outputs,
            |n: Seq<char>| h.adopted@.contains(n),
            |n: Seq<char>| output_row(h, n),
        ),
        0 <= i < outputs.len(),
    ensures
        ({
            let name = outputs[i].node_name;
            let given = h.output_labels@.contains_key(name);
            let device = h.devices@.contains_key(name);
            let receiver = h.ap2_devices@.contains_key(name);
            let host = h.pwsink_hosts@.contains_key(name);
            &&& given ==> outputs[i].display_name == h.output_labels@[name]@
            &&& !given && device ==> outputs[i].display_name == h.devices@[name].display_name@
            &&& !given && !device && receiver ==> outputs[i].display_name
                == h.ap2_devices@[name].display_name@
            &&& !given && !device && !receiver && host ==> outputs[i].display_name
                == h.pwsink_hosts@[name]@
            &&& !given && !device && !receiver && !host ==> outputs[i].display_name
                == display_name(name)
        }),
{
    assert(outputs[i] == output_row(h, outputs[i].node_name));
}

/// An output's row carries what is stored and reported for it: its level and its
/// mute, whether its session is up, its error, its dropped cycles, its buffering and
/// whether an alignment has taken it. What is not known is left out.
pub proof fn law_rows_carry_what_is_known(h: House, outputs: Seq<NodeView>, i: int)
    requires
        lists_exactly(
            outputs,
            |n: Seq<char>| h.adopted@.contains(n),
            |n: Seq<char>| output_row(h, n),
        ),
        0 <= i < outputs.len(),
    ensures
        ({
            let name = outputs[i].node_name;
            let row = outputs[i];
            let sendspin = SENDSPIN_DEV_PREFIX@.is_prefix_of(name);
            let airplay = AP2_DEV_PREFIX@.is_prefix_of(name);
            let host = PWSINK_DEV_PREFIX@.is_prefix_of(name);
            &&& sendspin && h.sendspin_volumes@.contains_key(name) ==> row.volume == Some(
                Volume::Percent(h.sendspin_volumes@[name]),
            )
            &&& sendspin && !h.sendspin_volumes@.contains_key(name) ==> row.volume is None
            &&& airplay && h.ap2_volumes@.contains_key(name) ==> row.volume == Some(
                Volume::Level(h.ap2_volumes@[name]),
            )
            &&& airplay && !h.ap2_volumes@.contains_key(name) ==> row.volume is None
            &&& host && h.pwsink_volumes@.contains_key(name) ==> row.volume == Some(
                Volume::Level(h.pwsink_volumes@[name]),
            )
            &&& host && !h.pwsink_volumes@.contains_key(name) ==> row.volume is None
            &&& sendspin && h.sendspin_mutes@.contains_key(name) ==> row.muted == Some(
                h.sendspin_mutes@[name],
            )
            &&& sendspin && !h.sendspin_mutes@.contains_key(name) ==> row.muted == Some(false)
            &&& airplay && h.ap2_mutes@.contains_key(name) ==> row.muted == Some(
                h.ap2_mutes@[name],
            )
            &&& airplay && !h.ap2_mutes@.contains_key(name) ==> row.muted == Some(false)
            &&& host && h.pwsink_mutes@.contains_key(name) ==> row.muted == Some(
                h.pwsink_mutes@[name],
            )
            &&& host && !h.pwsink_mutes@.contains_key(name) ==> row.muted is None
            &&& host ==> row.level_caps == Some(
                LevelCaps {
                    volume: h.pwsink_volumes@.contains_key(name),
                    mute: h.pwsink_mutes@.contains_key(name),
                },
            )
            &&& airplay ==> row.streaming == Some(h.ap2_connected@.contains(name))
            &&& host ==> row.streaming == Some(
                h.pwsink.map@.contains_key(name) && h.pwsink.map@[name].established,
            )
            &&& h.ap2_errors@.contains_key(name) ==> row.last_error == Some(h.ap2_errors@[name]@)
            &&& !h.ap2_errors@.contains_key(name) ==> row.last_error is None
            &&& h.xruns@.contains_key(name) ==> row.xruns == Some(h.xruns@[name])
            &&& !h.xruns@.contains_key(name) ==> row.xruns is None
            &&& row.held == h.held@.contains(name)
            &&& row.latency_ms == latency_of(h.lat, name)
            &&& !row.configured
        }),
{
    let name = outputs[i].node_name;
    assert(outputs[i] == output_row(h, name));
    crate::names::lemma_kinds_disjoint(name);
    assert(kind_prefix(OutputKind::Sendspin) == SENDSPIN_DEV_PREFIX@);
    assert(kind_prefix(OutputKind::Airplay2) == AP2_DEV_PREFIX@);
    assert(kind_prefix(OutputKind::PwSink) == PWSINK_DEV_PREFIX@);
}

/// What a stored delay adds: a sendspin device plays its delay behind the lead of
/// every group; a receiver or a host plays with the delay stored for it, or else
/// with the one all of its kind have; a source that has a buffer of its own shows
/// that.
pub proof fn law_stored_delays_show(lat: LatencyConfig, name: Seq<char>)
    requires
        leads_fit(lat),
    ensures
        lat.source_latencies@.contains_key(name) ==> latency_of(lat, name) == Some(
            lat.source_latencies@[name],
        ),
        !lat.source_latencies@.contains_key(name) ==> {
            &&& SENDSPIN_DEV_PREFIX@.is_prefix_of(name) && lat.sendspin_delays@.contains_key(name)
                ==> latency_of(lat, name) is Some && latency_of(lat, name)->0 == lat.group_lead_ms
                + lat.sendspin_delays@[name]
            &&& SENDSPIN_DEV_PREFIX@.is_prefix_of(name) && !lat.sendspin_delays@.contains_key(name)
                ==> latency_of(lat, name) == Some(lat.group_lead_ms)
            &&& AP2_DEV_PREFIX@.is_prefix_of(name) && lat.ap2_delays@.contains_key(name)
                ==> latency_of(lat, name) == Some(lat.ap2_delays@[name] as u32)
            &&& AP2_DEV_PREFIX@.is_prefix_of(name) && !lat.ap2_delays@.contains_key(name)
                ==> latency_of(lat, name) == Some(lat.ap2_default_ms)
            &&& PWSINK_DEV_PREFIX@.is_prefix_of(name) && lat.pwsink_jitters@.contains_key(name)
                ==> latency_of(lat, name) == Some(lat.pwsink_jitters@[name] as u32)
            &&& PWSINK_DEV_PREFIX@.is_prefix_of(name) && !lat.pwsink_jitters@.contains_key(name)
                ==> latency_of(lat, name) == Some(lat.pwsink_default_ms)
        },
{
    crate::names::lemma_kinds_disjoint(name);
    assert(kind_prefix(OutputKind::Sendspin) == SENDSPIN_DEV_PREFIX@);
    assert(kind_prefix(OutputKind::Airplay2) == AP2_DEV_PREFIX@);
    assert(kind_prefix(OutputKind::PwSink) == PWSINK_DEV_PREFIX@);
    assert(sendspin_latency(lat, name) <= u32::MAX);
}

/// A source is listed where the graph has it, with the id of its newest node, and
/// where a stored route to an adopted output starts at it; it shows as present
/// exactly in the first case. Its label and its peak are those stored for it.
pub proof fn law_sources_are_listed_where_they_matter(
    h: House,
    sources: Seq<NodeView>,
    name: Seq<char>,
)
    requires
        lists_exactly(
            sources,
            |n: Seq<char>| source_listed(h, n),
            |n: Seq<char>| source_row(h, n),
        ),
    ensures
        (exists|i: int| 0 <= i < sources.len() && (#[trigger] sources[i]).node_name == name) <==> ((
        exists|i: int|
            #[trigger] is_source_at(h.reg, i) && h.reg.nodes.values()[i].node_name@ == name) || (
        exists|i: int|
            0 <= i < h.intent@.len() && (#[trigger] h.intent@[i]).source@ == name
                && h.adopted@.contains(h.intent@[i].output@))),
        forall|k: int|
            0 <= k < sources.len() && (#[trigger] sources[k]).node_name == name ==> {
                let row = sources[k];
                &&& row.present <==> exists|i: int|
                    #[trigger] is_source_at(h.reg, i) && h.reg.nodes.values()[i].node_name@ == name
                &&& row.present ==> row.node_id is Some && exists|i: int|
                    #[trigger] is_source_at(h.reg, i) && h.reg.nodes.values()[i].node_name@ == name
                        && h.reg.nodes.values()[i].node_id == row.node_id->0
                &&& forall|i: int|
                    #[trigger] is_source_at(h.reg, i) && h.reg.nodes.values()[i].node_name@ == name
                        ==> h.reg.nodes.values()[i].node_id <= row.node_id->0
                &&& !row.present ==> row.node_id is None
                &&& row.configured
                &&& row.latency_ms == latency_of(h.lat, name)
                &&& row.volume is None
                &&& row.muted is None
                &&& row.last_error is None
                &&& h.source_labels@.contains_key(name) ==> row.display_name
                    == h.source_labels@[name]@
                &&& !h.source_labels@.contains_key(name) ==> row.display_name == name
                &&& h.peaks@.contains_key(name) ==> row.peak == h.peaks@[name]
                &&& !h.peaks@.contains_key(name) ==> row.peak == 0
                &&& h.xruns@.contains_key(name) ==> row.xruns == Some(h.xruns@[name])
                &&& !h.xruns@.contains_key(name) ==> row.xruns is None
            },
{
    let nodes = h.reg.nodes.values();
    let ports = h.reg.ports.values();
    let listed = |n: Seq<char>| source_listed(h, n);
    let row = |n: Seq<char>| source_row(h, n);
    let p = |n: NodeInfo| n.node_name@ == name && is_source(h.reg, n);
    lemma_newest(nodes, p);
    lemma_newest_alike(nodes);
    assert(source_id(h.reg, name) == newest(nodes, p));
    assert forall|i: int| 0 <= i < nodes.len() implies is_source(
        h.reg,
        #[trigger] nodes[i],
    ) == is_source_at(h.reg, i) by {
        if is_source(h.reg, nodes[i]) {
            let j = choose|j: int|
                0 <= j < ports.len() && plays_out(#[trigger] ports[j], nodes[i].node_id, false);
            assert(leaves_by(ports, j, nodes[i].node_id, false));
        }
        if is_source_at(h.reg, i) {
            let j = choose|j: int| #[trigger] leaves_by(ports, j, nodes[i].node_id, false);
            assert(plays_out(ports[j], nodes[i].node_id, false));
        }
    }
    let there = exists|i: int| #[trigger] is_source_at(h.reg, i) && nodes[i].node_name@ == name;
    if there {
        let i = choose|i: int| #[trigger] is_source_at(h.reg, i) && nodes[i].node_name@ == name;
        assert(p(nodes[i]));
    }
    if source_id(h.reg, name) is Some {
        let i = choose|i: int|
            0 <= i < nodes.len() && p(#[trigger] nodes[i]) && nodes[i].node_id == newest(
                nodes,
                p,
            )->0;
        assert(is_source_at(h.reg, i) && nodes[i].node_name@ == name && nodes[i].node_id
            == source_id(h.reg, name)->0);
    }
    assert forall|i: int|
        #[trigger] is_source_at(h.reg, i) && nodes[i].node_name@ == name implies nodes[i].node_id
        <= source_id(h.reg, name)->0 by {
        assert(p(nodes[i]));
    }
    assert(there <==> source_id(h.reg, name) is Some);
    if exists|i: int| 0 <= i < sources.len() && (#[trigger] sources[i]).node_name == name {
        let i = choose|i: int| 0 <= i < sources.len() && (#[trigger] sources[i]).node_name == name;
        assert(listed(sources[i].node_name));
    }
    if source_listed(h, name) {
        assert(listed(name));
        assert(sources.contains(row(name)));
        let i = choose|i: int| 0 <= i < sources.len() && sources[i] == row(name);
        assert(sources[i].node_name == name);
    }
    assert forall|k: int| 0 <= k < sources.len() && (#[trigger] sources[k]).node_name == name implies
        sources[k] == source_row(h, name) by {
        assert(sources[k] == row(sources[k].node_name));
    }
}

/// The rows stand in the order they are called by, and rows that are called the same
/// in the order of their node names.
pub proof fn law_rows_stand_in_order(
    rows: Seq<NodeView>,
    listed: spec_fn(Seq<char>) -> bool,
    row: spec_fn(Seq<char>) -> NodeView,
    i: int,
    j: int,
)
    requires
        lists_exactly(rows, listed, row),
        0 <= i < j < rows.len(),
    ensures
        lex_lt(rows[i].display_name, rows[j].display_name) || (rows[i].display_name
            == rows[j].display_name && lex_lt(rows[i].node_name, rows[j].node_name)),
{
    assert(pair_lt(row_key(rows[i]), row_key(rows[j])));
}

// ---- requests ----------------------------------------------------------------------

/// A request for a route, by node names.
pub struct LinkPairRequest {
    pub source: String,
    pub output: String,
}

/// What is answered to a request.
#[derive(Debug, PartialEq, Eq)]
pub struct LinkOpResponse {
    pub ok: bool,
    pub message: String,
}

impl LinkOpResponse {
    /// The model: whether it worked, and the message.
    pub open spec fn view(&self) -> (bool, Seq<char>) {
        (self.ok, self.message@)
    }
}

fn respond(ok: bool, message: &str) -> (r: LinkOpResponse)
    ensures
        r@ == (ok, message@),
{
    LinkOpResponse { ok, message: message.to_string() }
}

/// The refusal of a route to an output that was not added.
pub open spec fn not_an_output(output: Seq<char>) -> Seq<char> {
    "'"@ + output + "' isn't one of your outputs — add it on the Outputs page first"@
}

/// Refuses a route to an output that was not added; nothing is stored then.
pub fn refuse_link(req: &LinkPairRequest, adopted: &NameSet) -> (r: Option<LinkOpResponse>)
    ensures
        match r {
            Some(answer) => !adopted@.contains(req.output@) && answer@ == (
                false,
                not_an_output(req.output@),
            ),
            None => adopted@.contains(req.output@),
        },
{
    if adopted.contains(&req.output) {
        None
    } else {
        Some(
            LinkOpResponse {
                ok: false,
                message: joined3(
                    "'",
                    &req.output,
                    "' isn't one of your outputs — add it on the Outputs page first",
                ),
            },
        )
    }
}

/// What is answered where the intent could not be stored.
pub fn not_persisted(error: &str) -> (r: LinkOpResponse)
    ensures
        r@ == (false, "failed to persist routing intent: "@ + error@),
{
    LinkOpResponse {
        ok: false,
        message: crate::text::joined2("failed to persist routing intent: ", error),
    }
}

/// What a stored route still takes.
pub enum LinkStep {
    /// Nothing; this is the answer.
    Done(LinkOpResponse),
    /// These links are to be created.
    Create(Vec<LinkSpec>),
}

/// What a stored route still takes: its links, where both nodes are live.
pub fn link_step(reg: &RegistryState, req: &LinkPairRequest) -> (r: LinkStep)
    ensures
        match (id_of(*reg, req.source@), id_of(*reg, req.output@)) {
            (Some(s), Some(o)) => {
                let specs = links_of(*reg, s, o, false);
                if specs.len() == 0 {
                    r matches LinkStep::Done(answer) && answer@ == (
                        true,
                        "saved; no matching channel ports yet"@,
                    )
                } else {
                    r matches LinkStep::Create(v) && v@ == specs
                }
            },
            _ => r matches LinkStep::Done(answer) && answer@ == (
                true,
                "saved; routing via sync group"@,
            ),
        },
{
    match (node_id_for(reg, &req.source), node_id_for(reg, &req.output)) {
        (Some(s), Some(o)) => {
            let specs = matched_port_specs(reg, s, o, false);
            if specs.len() == 0 {
                LinkStep::Done(respond(true, "saved; no matching channel ports yet"))
            } else {
                LinkStep::Create(specs)
            }
        },
        _ => LinkStep::Done(respond(true, "saved; routing via sync group")),
    }
}

/// What a removed route still takes.
pub enum UnlinkStep {
    /// Nothing; this is the answer.
    Done(LinkOpResponse),
    /// The links with these ids are to be destroyed.
    Destroy(Vec<u32>),
}

/// What a removed route still takes: every live link from its source to its output
/// is destroyed.
pub fn unlink_step(reg: &RegistryState, req: &LinkPairRequest) -> (r: UnlinkStep)
    ensures
        match (id_of(*reg, req.source@), id_of(*reg, req.output@)) {
            (Some(s), Some(o)) => {
                let ids = link_ids_between(reg.links.values(), s, o);
                if ids.len() == 0 {
                    r matches UnlinkStep::Done(answer) && answer@ == (
                        true,
                        "no live links to remove"@,
                    )
                } else {
                    r matches UnlinkStep::Destroy(v) && v@ == ids
                }
            },
            _ => r matches UnlinkStep::Done(answer) && answer@ == (
                true,
                "unlinked (endpoint offline; intent cleared)"@,
            ),
        },
{
    match (node_id_for(reg, &req.source), node_id_for(reg, &req.output)) {
        (Some(s), Some(o)) => {
            let ids = reg.links_between(s, o);
            if ids.len() == 0 {
                UnlinkStep::Done(respond(true, "no live links to remove"))
            } else {
                UnlinkStep::Destroy(ids)
            }
        },
        _ => UnlinkStep::Done(respond(true, "unlinked (endpoint offline; intent cleared)")),
    }
}

/// What the graph's answer to creating or destroying links is reported as. `sent`
/// is whether the request reached the graph thread, `reply` what came back.
pub fn link_reply(sent: bool, reply: Option<Result<String, String>>) -> (r: LinkOpResponse)
    ensures
        r@ == if !sent {
            (false, "pipewire thread unavailable"@)
        } else {
            match reply {
                Some(Ok(message)) => (true, message@),
                Some(Err(message)) => (false, message@),
                None => (false, "pipewire thread dropped the request"@),
            }
        },
{
    if !sent {
        return respond(false, "pipewire thread unavailable");
    }
    match reply {
        Some(Ok(message)) => LinkOpResponse { ok: true, message },
        Some(Err(message)) => LinkOpResponse { ok: false, message },
        None => respond(false, "pipewire thread dropped the request"),
    }
}

/// What forgetting all routes of a node is reported as.
pub fn forget_reply(node_name: &str, outcome: Result<(), String>) -> (r: LinkOpResponse)
    ensures
        r@ == match outcome {
            Ok(_) => (true, "forgot routing for '"@ + node_name@ + "'"@),
            Err(e) => (false, "failed to forget '"@ + node_name@ + "': "@ + e@),
        },
{
    match outcome {
        Ok(_) => LinkOpResponse { ok: true, message: joined3("forgot routing for '", node_name, "'") },
        Err(e) => {
            let start = joined3("failed to forget '", node_name, "': ");
            LinkOpResponse { ok: false, message: crate::text::joined2(&start, &e) }
        },
    }
}

// ---- the fast lane --------------------------------------------------------------------

/// The sources that are in the graph, with their node ids.
pub open spec fn present_sources(rows: Seq<NodeView>) -> Seq<(Seq<char>, u32)>
    decreases rows.len(),
{
    if rows.len() == 0 {
        Seq::empty()
    } else {
        let before = present_sources(rows.drop_last());
        match rows.last().node_id {
            Some(id) => before.push((rows.last().node_name, id)),
            None => before,
        }
    }
}

/// The sources to meter while the matrix is watched.
pub fn present_source_meters(matrix: &RoutingMatrix) -> (r: Vec<(String, u32)>)
    ensures
        r@.map_values(|p: (String, u32)| (p.0@, p.1)) == present_sources(rows(matrix.sources@)),
{
    let mut out: Vec<(String, u32)> = Vec::new();
    let ghost all = rows(matrix.sources@);
    let mut i: usize = 0;
    proof {
        assert(out@.map_values(|p: (String, u32)| (p.0@, p.1)) =~= present_sources(all.take(0)));
    }
    while i < matrix.sources.len()
        invariant
            i <= matrix.sources@.len(),
            all == rows(matrix.sources@),
            out@.map_values(|p: (String, u32)| (p.0@, p.1)) == present_sources(all.take(i as int)),
        decreases matrix.sources.len() - i,
    {
        let n = &matrix.sources[i];
        let ghost before = out@.map_values(|p: (String, u32)| (p.0@, p.1));
        proof {
            assert(all.take(i + 1).drop_last() =~= all.take(i as int));
        }
        match n.node_id {
            Some(id) => {
                out.push((n.node_name.clone(), id));
                assert(out@.map_values(|p: (String, u32)| (p.0@, p.1)) =~= before.push(
                    (n.node_name@, id),
                ));
            },
            None => {},
        }
        i += 1;
    }
    assert(all.take(i as int) =~= all);
    out
}

/// The node names of a listing.
pub open spec fn row_names(s: Seq<NodeView>) -> Seq<Seq<char>> {
    s.map_values(|n: NodeView| n.node_name)
}

/// Every node the matrix shows: the sources, then the outputs.
pub fn matrix_node_names(matrix: &RoutingMatrix) -> (r: Vec<String>)
    ensures
        views(r@) == row_names(rows(matrix.sources@)) + row_names(rows(matrix.outputs@)),
{
    let mut out: Vec<String> = Vec::new();
    let n: usize = matrix.sources.len();
    let mut i: usize = 0;
    while i < n
        invariant
            i <= n,
            n == matrix.sources@.len(),
            out@.len() == i,
            forall|j: int| 0 <= j < i ==> (#[trigger] out@[j])@ == matrix.sources@[j].node_name@,
        decreases n - i,
    {
        out.push(matrix.sources[i].node_name.clone());
        i += 1;
    }
    let m: usize = matrix.outputs.len();
    let mut k: usize = 0;
    while k < m
        invariant
            k <= m,
            m == matrix.outputs@.len(),
            n == matrix.sources@.len(),
            out@.len() == n + k,
            forall|j: int| 0 <= j < n ==> (#[trigger] out@[j])@ == matrix.sources@[j].node_name@,
            forall|j: int|
                n <= j < n + k ==> (#[trigger] out@[j])@ == matrix.outputs@[j - n].node_name@,
        decreases m - k,
    {
        out.push(matrix.outputs[k].node_name.clone());
        k += 1;
    }
    assert(views(out@) =~= row_names(rows(matrix.sources@)) + row_names(rows(matrix.outputs@)));
    out
}

/// One node's live figures; what is zero is left out.
#[derive(Clone, Copy, Debug, PartialEq, Eq, Structural)]
pub struct MeterSample {
    /// As the bits of a 32-bit float.
    pub peak: Option<u32>,
    pub xruns: Option<u32>,
}

/// Whether the bits are those of a number above zero.
pub open spec fn above_zero(bits: u32) -> bool {
    0 < bits <= 0x7f80_0000
}

/// What there is to say of a node.
pub open spec fn sample_of(
    peaks: Map<Seq<char>, u32>,
    xruns: Map<Seq<char>, u32>,
    name: Seq<char>,
) -> MeterSample {
    MeterSample {
        peak: if peaks.contains_key(name) && above_zero(peaks[name]) {
            Some(peaks[name])
        } else {
            None
        },
        xruns: if xruns.contains_key(name) && xruns[name] > 0 {
            Some(xruns[name])
        } else {
            None
        },
    }
}

/// Whether there is anything to say.
pub open spec fn says_something(s: MeterSample) -> bool {
    s.peak is Some || s.xruns is Some
}

/// The figures of the nodes that have any, out of those the matrix shows.
pub open spec fn samples_of(
    nodes: Seq<Seq<char>>,
    peaks: Map<Seq<char>, u32>,
    xruns: Map<Seq<char>, u32>,
) -> Map<Seq<char>, MeterSample> {
    Map::new(
        |n: Seq<char>| nodes.contains(n) && says_something(sample_of(peaks, xruns, n)),
        |n: Seq<char>| sample_of(peaks, xruns, n),
    )
}

/// The figures that move without a change of the graph, for the nodes the matrix
/// shows. A node with nothing to report is left out, so a silent house comes to
/// nothing at all.
pub fn build_meter_samples(
    nodes: &Vec<String>,
    peaks: &NameMap<u32>,
    xruns: &NameMap<u32>,
) -> (r: NameMap<MeterSample>)
    ensures
        r@ == samples_of(views(nodes@), peaks@, xruns@),
{
    let mut out: NameMap<MeterSample> = NameMap::new();
    let ghost names = views(nodes@);
    let mut i: usize = 0;
    proof {
        assert(out@ =~= samples_of(names.take(0), peaks@, xruns@));
    }
    while i < nodes.len()
        invariant
            i <= nodes@.len(),
            names == views(nodes@),
            out@ == samples_of(names.take(i as int), peaks@, xruns@),
        decreases nodes.len() - i,
    {
        proof {
            crate::maps::lemma_take_next(names, i as int);
        }
        let name = &nodes[i];
        let peak = match number_at(peaks, name) {
            Some(p) => if p > 0 && p <= 0x7f80_0000 {
                Some(p)
            } else {
                None
            },
            None => None,
        };
        let drops = match number_at(xruns, name) {
            Some(x) => if x > 0 {
                Some(x)
            } else {
                None
            },
            None => None,
        };
        let sample = MeterSample { peak, xruns: drops };
        let ghost before = out@;
        assert(sample == sample_of(peaks@, xruns@, names[i as int]));
        if peak.is_some() || drops.is_some() {
            out.insert(name.clone(), sample);
        }
        proof {
            assert(out@ =~= samples_of(names.take(i + 1), peaks@, xruns@));
        }
        i += 1;
    }
    assert(names.take(i as int) =~= names);
    out
}

/// A silent system, with every peak at zero and no dropped cycle, has nothing to
/// report.
pub proof fn law_silence_costs_nothing(
    nodes: Seq<Seq<char>>,
    peaks: Map<Seq<char>, u32>,
    xruns: Map<Seq<char>, u32>,
)
    requires
        forall|n: Seq<char>| #[trigger] peaks.contains_key(n) ==> peaks[n] == 0,
        forall|n: Seq<char>| #[trigger] xruns.contains_key(n) ==> xruns[n] == 0,
    ensures
        samples_of(nodes, peaks, xruns) == Map::<Seq<char>, MeterSample>::empty(),
{
    assert(samples_of(nodes, peaks, xruns) =~= Map::<Seq<char>, MeterSample>::empty());
}

/// A node that the matrix shows has its figures in the fast lane, exactly where it
/// has some: its peak where that is above zero, its dropped cycles where there are
/// any. Nothing else is reported.
pub proof fn law_every_figure_above_zero_is_reported(
    nodes: Seq<Seq<char>>,
    peaks: Map<Seq<char>, u32>,
    xruns: Map<Seq<char>, u32>,
    name: Seq<char>,
)
    ensures
        ({
            let r = samples_of(nodes, peaks, xruns);
            &&& nodes.contains(name) && peaks.contains_key(name) && 0 < peaks[name] <= 0x7f80_0000
                ==> r.contains_key(name) && r[name].peak == Some(peaks[name])
            &&& nodes.contains(name) && xruns.contains_key(name) && xruns[name] > 0
                ==> r.contains_key(name) && r[name].xruns == Some(xruns[name])
            &&& r.contains_key(name) ==> nodes.contains(name) && (r[name].peak is Some
                || r[name].xruns is Some)
            &&& r.contains_key(name) && r[name].peak is Some ==> peaks.contains_key(name)
                && r[name].peak == Some(peaks[name]) && peaks[name] > 0
            &&& r.contains_key(name) && r[name].xruns is Some ==> xruns.contains_key(name)
                && r[name].xruns == Some(xruns[name]) && xruns[name] > 0
        }),
{
}

/// Every listed source that is in the graph is metered by its node's id, and nothing
/// else is.
pub proof fn law_every_present_source_is_metered(rows: Seq<NodeView>, name: Seq<char>, id: u32)
    ensures
        present_sources(rows).contains((name, id)) <==> exists|i: int|
            0 <= i < rows.len() && (#[trigger] rows[i]).node_name == name && rows[i].node_id
                == Some(id),
    decreases rows.len(),
{
    if rows.len() > 0 {
        let front = rows.drop_last();
        law_every_present_source_is_metered(front, name, id);
        let before = present_sources(front);
        if rows.last().node_id is Some {
            crate::maps::lemma_push_contains(before, (rows.last().node_name, rows.last().node_id->0));
        }
        if before.contains((name, id)) {
            let i = choose|i: int|
                0 <= i < front.len() && (#[trigger] front[i]).node_name == name && front[i].node_id
                    == Some(id);
            assert(rows[i] == front[i]);
        }
        if exists|i: int|
            0 <= i < rows.len() && (#[trigger] rows[i]).node_name == name && rows[i].node_id == Some(
                id,
            ) {
            let i = choose|i: int|
                0 <= i < rows.len() && (#[trigger] rows[i]).node_name == name && rows[i].node_id
                    == Some(id);
            if i < front.len() {
                assert(front[i] == rows[i]);
            }
        }
        assert(rows[rows.len() - 1] == rows.last());
    }
}

proof fn lemma_entry_for(entries: Seq<SourceEntry>, n: int, name: Seq<char>, i: int)
    requires
        0 <= i < n <= entries.len(),
        entries[i].node_name@ == name,
        forall|j: int| i < j < n ==> (#[trigger] entries[j]).node_name@ != name,
    ensures
        entry_for(entries, n, name) == Some(entries[i]),
    decreases n,
{
    if i < n - 1 {
        assert(entries[n - 1].node_name@ != name);
        lemma_entry_for(entries, n - 1, name, i);
    }
}

proof fn lemma_no_entry_for(entries: Seq<SourceEntry>, n: int, name: Seq<char>)
    requires
        0 <= n <= entries.len(),
        forall|j: int| 0 <= j < n ==> (#[trigger] entries[j]).node_name@ != name,
    ensures
        entry_for(entries, n, name) is None,
    decreases n,
{
    if n > 0 {
        lemma_no_entry_for(entries, n - 1, name);
    }
}

/// Of the entries for one node the last counts, and a node without an entry has no
/// setting.
pub proof fn law_the_last_entry_counts(entries: Seq<SourceEntry>, name: Seq<char>)
    ensures
        forall|i: int|
            0 <= i < entries.len() && (#[trigger] entries[i]).node_name@ == name && (forall|j: int|
                i < j < entries.len() ==> (#[trigger] entries[j]).node_name@ != name) ==> entry_for(
                entries,
                entries.len() as int,
                name,
            ) == Some(entries[i]),
        (forall|j: int| 0 <= j < entries.len() ==> (#[trigger] entries[j]).node_name@ != name)
            ==> entry_for(entries, entries.len() as int, name) is None,
{
    assert forall|i: int|
        0 <= i < entries.len() && (#[trigger] entries[i]).node_name@ == name && (forall|j: int|
            i < j < entries.len() ==> (#[trigger] entries[j]).node_name@ != name) implies entry_for(
        entries,
        entries.len() as int,
        name,
    ) == Some(entries[i]) by {
        lemma_entry_for(entries, entries.len() as int, name, i);
    }
    if forall|j: int| 0 <= j < entries.len() ==> (#[trigger] entries[j]).node_name@ != name {
        lemma_no_entry_for(entries, entries.len() as int, name);
    }
}

/// Linking by name joins the newest nodes of the two names, and nothing where either
/// name is not in the graph.
pub proof fn law_linking_by_name_joins_the_newest(
    reg: RegistryState,
    source: Seq<char>,
    output: Seq<char>,
    monitor: bool,
    s: u32,
    o: u32,
)
    ensures
        id_of(reg, source) == Some(s) && id_of(reg, output) == Some(o) ==> wanted_links(
            reg,
            source,
            output,
            monitor,
        ) == links_of(reg, s, o, monitor),
        (forall|i: int|
            0 <= i < reg.nodes.values().len() ==> (#[trigger] reg.nodes.values()[i]).node_name@
                != source) ==> wanted_links(reg, source, output, monitor).len() == 0,
        (forall|i: int|
            0 <= i < reg.nodes.values().len() ==> (#[trigger] reg.nodes.values()[i]).node_name@
                != output) ==> wanted_links(reg, source, output, monitor).len() == 0,
{
    law_the_newest_of_a_name_is_found(reg, source);
    law_the_newest_of_a_name_is_found(reg, output);
}

} // verus!
