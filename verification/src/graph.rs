//! The PipeWire graph as this daemon sees it: a snapshot of the registry's
//! nodes, ports and links, and the rules by which registry events change it and
//! graph mutations are reported.

use crate::maps::{IdMap, NameSet};
use crate::text::{decimal, decimal_of, join, join_spec, parse_u32, parsed_u32, push_decimal, views};
use vstd::prelude::*;

verus! {

/// One output port to link to one input port, by object id.
#[derive(Clone, Copy, Debug, PartialEq, Eq, Structural)]
pub struct LinkSpec {
    pub out_node: u32,
    pub out_port: u32,
    pub in_node: u32,
    pub in_port: u32,
}

pub struct NodeInfo {
    pub node_id: u32,
    pub node_name: String,
    pub media_class: Option<String>,
}

pub struct PortInfo {
    pub port_id: u32,
    pub node_id: u32,
    pub port_name: String,
    pub direction: String,
}

#[derive(Clone, Copy, Debug, PartialEq, Eq, Structural)]
pub struct LinkInfo {
    pub link_id: u32,
    pub output_node: u32,
    pub input_node: u32,
    /// The port-level endpoints, 0 where the registry did not give them.
    pub output_port: u32,
    pub input_port: u32,
}

/// The registry snapshot.
pub struct RegistryState {
    pub nodes: IdMap<NodeInfo>,
    pub ports: IdMap<PortInfo>,
    pub links: IdMap<LinkInfo>,
}

/// The properties of a registry global that this daemon reads.
pub struct GlobalProps {
    pub node_name: Option<String>,
    pub media_class: Option<String>,
    pub port_name: Option<String>,
    pub node_id: Option<String>,
    pub port_direction: Option<String>,
    pub link_output_node: Option<String>,
    pub link_input_node: Option<String>,
    pub link_output_port: Option<String>,
    pub link_input_port: Option<String>,
}

/// What a registry global is to this daemon.
pub enum Object {
    Node(NodeInfo),
    Port(PortInfo),
    Link(LinkInfo),
}

/// The number a property holds, where it is there and is one.
pub open spec fn id_prop(p: Option<String>) -> Option<u32> {
    match p {
        Some(s) => parsed_u32(s@),
        None => None,
    }
}

pub open spec fn port_prop(p: Option<String>) -> u32 {
    match id_prop(p) {
        Some(n) => n,
        None => 0,
    }
}

/// What a global with these properties is: a node where it has a node name, else
/// a port where it has a port's name, node and direction, else a link where it
/// has both end nodes, else nothing. A number that does not read as one counts
/// as missing.
pub open spec fn object_of(id: u32, p: GlobalProps) -> Option<Object> {
    if p.node_name is Some {
        Some(
            Object::Node(
                NodeInfo { node_id: id, node_name: p.node_name->0, media_class: p.media_class },
            ),
        )
    } else if p.port_name is Some && p.port_direction is Some && id_prop(p.node_id) is Some {
        Some(
            Object::Port(
                PortInfo {
                    port_id: id,
                    node_id: id_prop(p.node_id)->0,
                    port_name: p.port_name->0,
                    direction: p.port_direction->0,
                },
            ),
        )
    } else if id_prop(p.link_output_node) is Some && id_prop(p.link_input_node) is Some {
        Some(
            Object::Link(
                LinkInfo {
                    link_id: id,
                    output_node: id_prop(p.link_output_node)->0,
                    input_node: id_prop(p.link_input_node)->0,
                    output_port: port_prop(p.link_output_port),
                    input_port: port_prop(p.link_input_port),
                },
            ),
        )
    } else {
        None
    }
}

fn read_id(p: &Option<String>) -> (r: Option<u32>)
    ensures
        r == id_prop(*p),
{
    match p {
        Some(s) => parse_u32(s),
        None => None,
    }
}

fn read_port(p: &Option<String>) -> (r: u32)
    ensures
        r == port_prop(*p),
{
    match read_id(p) {
        Some(n) => n,
        None => 0,
    }
}

/// What a global with these properties is to this daemon.
pub fn classify_global(id: u32, props: GlobalProps) -> (r: Option<Object>)
    ensures
        r == object_of(id, props),
{
    let node_id = read_id(&props.node_id);
    let output_node = read_id(&props.link_output_node);
    let input_node = read_id(&props.link_input_node);
    let output_port: u32 = read_port(&props.link_output_port);
    let input_port: u32 = read_port(&props.link_input_port);
    if let Some(node_name) = props.node_name {
        return Some(Object::Node(NodeInfo { node_id: id, node_name, media_class: props.media_class }));
    }
    match (props.port_name, props.port_direction, node_id) {
        (Some(port_name), Some(direction), Some(node_id)) => {
            return Some(Object::Port(PortInfo { port_id: id, node_id, port_name, direction }));
        },
        _ => {},
    }
    match (output_node, input_node) {
        (Some(output_node), Some(input_node)) => Some(
            Object::Link(LinkInfo { link_id: id, output_node, input_node, output_port, input_port }),
        ),
        _ => None,
    }
}

/// Some link of the sequence ends at `node_id`.
pub open spec fn has_incoming(links: Map<u32, LinkInfo>, node_id: u32) -> bool {
    exists|k: u32| links.contains_key(k) && (#[trigger] links[k]).input_node == node_id
}

/// The two ports are linked.
pub open spec fn ports_linked(links: Map<u32, LinkInfo>, spec: LinkSpec) -> bool {
    exists|k: u32|
        links.contains_key(k) && (#[trigger] links[k]).output_port == spec.out_port
            && links[k].input_port == spec.in_port
}

/// The model of a [`RegistryState`].
#[verifier::ext_equal]
pub ghost struct RegistryView {
    pub nodes: Map<u32, NodeInfo>,
    pub ports: Map<u32, PortInfo>,
    pub links: Map<u32, LinkInfo>,
}

/// The snapshot with a registry global taken in.
pub open spec fn with_global(r: RegistryView, id: u32, props: GlobalProps) -> RegistryView {
    match object_of(id, props) {
        Some(Object::Node(n)) => RegistryView { nodes: r.nodes.insert(id, n), ..r },
        Some(Object::Port(p)) => RegistryView { ports: r.ports.insert(id, p), ..r },
        Some(Object::Link(l)) => RegistryView { links: r.links.insert(id, l), ..r },
        None => r,
    }
}

/// The snapshot without what stands under an id.
pub open spec fn without_global(r: RegistryView, id: u32) -> RegistryView {
    RegistryView {
        nodes: r.nodes.remove(id),
        ports: r.ports.remove(id),
        links: r.links.remove(id),
    }
}

impl RegistryState {
    pub open spec fn view(&self) -> RegistryView {
        RegistryView { nodes: self.nodes@, ports: self.ports@, links: self.links@ }
    }

    /// The empty snapshot.
    pub fn new() -> (r: Self)
        ensures
            r.nodes@ == Map::<u32, NodeInfo>::empty(),
            r.ports@ == Map::<u32, PortInfo>::empty(),
            r.links@ == Map::<u32, LinkInfo>::empty(),
            r.nodes.values() == Seq::<NodeInfo>::empty(),
            r.ports.values() == Seq::<PortInfo>::empty(),
            r.links.values() == Seq::<LinkInfo>::empty(),
    {
        RegistryState { nodes: IdMap::new(), ports: IdMap::new(), links: IdMap::new() }
    }

    /// Takes a registry global in. Says whether the snapshot changed.
    pub fn add_global(&mut self, id: u32, props: GlobalProps) -> (changed: bool)
        ensures
            changed == (object_of(id, props) is Some),
            final(self)@ == with_global(old(self)@, id, props),
    {
        match classify_global(id, props) {
            Some(Object::Node(n)) => {
                self.nodes.insert(id, n);
                true
            },
            Some(Object::Port(p)) => {
                self.ports.insert(id, p);
                true
            },
            Some(Object::Link(l)) => {
                self.links.insert(id, l);
                true
            },
            None => false,
        }
    }

    /// Takes a registry global out, whatever it was.
    pub fn remove_global(&mut self, id: u32)
        ensures
            final(self)@ == without_global(old(self)@, id),
    {
        self.nodes.remove(id);
        self.ports.remove(id);
        self.links.remove(id);
    }

    /// Whether any link currently feeds into this node: what makes an output
    /// "playing" rather than "idle".
    pub fn node_has_incoming_link(&self, node_id: u32) -> (r: bool)
        ensures
            r == has_incoming(self.links@, node_id),
    {
        let n: usize = self.links.len();
        let mut i: usize = 0;
        while i < n
            invariant
                n == self.links.values().len(),
                n == self.links.ids().len(),
                i <= n,
                forall|j: int|
                    0 <= j < n ==> self.links@.contains_key(#[trigger] self.links.ids()[j])
                        && self.links@[self.links.ids()[j]] == self.links.values()[j],
                forall|j: int| 0 <= j < i ==> #[trigger] self.links.values()[j].input_node != node_id,
            decreases n - i,
        {
            if self.links.value_at(i).input_node == node_id {
                assert(self.links@.contains_key(self.links.ids()[i as int]));
                return true;
            }
            i += 1;
        }
        proof {
            if has_incoming(self.links@, node_id) {
                let k = choose|k: u32|
                    self.links@.contains_key(k) && (#[trigger] self.links@[k]).input_node == node_id;
                assert(self.links.ids().contains(k));
                let j = choose|j: int| 0 <= j < n && self.links.ids()[j] == k;
                assert(self.links@[self.links.ids()[j]] == self.links.values()[j]);
            }
        }
        false
    }

    /// Whether a link between exactly these two ports is in the snapshot, so that
    /// it need not be created again.
    pub fn already_linked(&self, spec: &LinkSpec) -> (r: bool)
        ensures
            r == ports_linked(self.links@, *spec),
    {
        let n: usize = self.links.len();
        let mut i: usize = 0;
        while i < n
            invariant
                n == self.links.values().len(),
                n == self.links.ids().len(),
                i <= n,
                forall|j: int|
                    0 <= j < n ==> self.links@.contains_key(#[trigger] self.links.ids()[j])
                        && self.links@[self.links.ids()[j]] == self.links.values()[j],
                forall|j: int|
                    0 <= j < i ==> !((#[trigger] self.links.values()[j]).output_port
                        == spec.out_port && self.links.values()[j].input_port == spec.in_port),
            decreases n - i,
        {
            let l = self.links.value_at(i);
            if l.output_port == spec.out_port && l.input_port == spec.in_port {
                assert(self.links@.contains_key(self.links.ids()[i as int]));
                return true;
            }
            i += 1;
        }
        proof {
            if ports_linked(self.links@, *spec) {
                let k = choose|k: u32|
                    self.links@.contains_key(k) && (#[trigger] self.links@[k]).output_port
                        == spec.out_port && self.links@[k].input_port == spec.in_port;
                assert(self.links.ids().contains(k));
                let j = choose|j: int| 0 <= j < n && self.links.ids()[j] == k;
                assert(self.links@[self.links.ids()[j]] == self.links.values()[j]);
            }
        }
        false
    }

    /// The ids of the links from `source_id` to `output_id`, in id order.
    pub fn links_between(&self, source_id: u32, output_id: u32) -> (r: Vec<u32>)
        ensures
            r@ == link_ids_between(self.links.values(), source_id, output_id),
            forall|k: u32| #[trigger]
                self.links@.contains_key(k) && self.links@[k].output_node == source_id
                    && self.links@[k].input_node == output_id ==> r@.contains(
                    self.links@[k].link_id,
                ),
            forall|id: u32| #[trigger]
                r@.contains(id) ==> exists|k: u32|
                    self.links@.contains_key(k) && (#[trigger] self.links@[k]).link_id == id
                        && self.links@[k].output_node == source_id && self.links@[k].input_node
                        == output_id,
    {
        let n: usize = self.links.len();
        let mut out: Vec<u32> = Vec::new();
        let mut i: usize = 0;
        while i < n
            invariant
                n == self.links.values().len(),
                n == self.links.ids().len(),
                i <= n,
                forall|j: int|
                    0 <= j < n ==> self.links@.contains_key(#[trigger] self.links.ids()[j])
                        && self.links@[self.links.ids()[j]] == self.links.values()[j],
                out@ == link_ids_between(
                    self.links.values().take(i as int),
                    source_id,
                    output_id,
                ),
            decreases n - i,
        {
            let l = self.links.value_at(i);
            if l.output_node == source_id && l.input_node == output_id {
                out.push(l.link_id);
            }
            proof {
                let v = self.links.values();
                assert(v.take(i + 1).drop_last() =~= v.take(i as int));
                assert(v.take(i + 1).last() == v[i as int]);
            }
            i += 1;
        }
        assert(self.links.values().take(i as int) =~= self.links.values());
        proof {
            let v = self.links.values();
            law_every_link_between_is_found(v, source_id, output_id);
            assert forall|k: u32| #[trigger]
                self.links@.contains_key(k) && self.links@[k].output_node == source_id
                    && self.links@[k].input_node == output_id implies out@.contains(
                self.links@[k].link_id,
            ) by {
                assert(self.links.ids().contains(k));
                let j = choose|j: int| 0 <= j < n && self.links.ids()[j] == k;
                assert(self.links@[self.links.ids()[j]] == self.links.values()[j]);
            }
            assert forall|id: u32| #[trigger] out@.contains(id) implies exists|k: u32|
                self.links@.contains_key(k) && (#[trigger] self.links@[k]).link_id == id
                    && self.links@[k].output_node == source_id && self.links@[k].input_node
                    == output_id by {
                let j = choose|j: int|
                    0 <= j < v.len() && (#[trigger] v[j]).link_id == id && v[j].output_node
                        == source_id && v[j].input_node == output_id;
                assert(self.links@[self.links.ids()[j]] == v[j]);
            }
        }
        out
    }
}

/// The ids of the links that lead from `source_id` to `output_id`, in order.
pub open spec fn link_ids_between(links: Seq<LinkInfo>, source_id: u32, output_id: u32) -> Seq<u32>
    decreases links.len(),
{
    if links.len() == 0 {
        Seq::empty()
    } else {
        let rest = link_ids_between(links.drop_last(), source_id, output_id);
        let l = links.last();
        if l.output_node == source_id && l.input_node == output_id {
            rest.push(l.link_id)
        } else {
            rest
        }
    }
}

/// A global that was added and then removed leaves no trace, whatever it was and
/// whatever stood under its id before.
pub proof fn law_removed_global_is_gone(r: RegistryView, id: u32, props: GlobalProps)
    ensures
        without_global(with_global(r, id, props), id) == without_global(r, id),
{
    assert(without_global(with_global(r, id, props), id) =~= without_global(r, id));
}

/// The ids handed out for a source and an output are those of the links that lead
/// from the one to the other, all of them and no others.
pub proof fn law_every_link_between_is_found(links: Seq<LinkInfo>, source_id: u32, output_id: u32)
    ensures
        forall|i: int|
            0 <= i < links.len() && (#[trigger] links[i]).output_node == source_id
                && links[i].input_node == output_id ==> link_ids_between(
                links,
                source_id,
                output_id,
            ).contains(links[i].link_id),
        forall|id: u32| #[trigger]
            link_ids_between(links, source_id, output_id).contains(id) ==> exists|i: int|
                0 <= i < links.len() && (#[trigger] links[i]).link_id == id && links[i].output_node
                    == source_id && links[i].input_node == output_id,
    decreases links.len(),
{
    let all = link_ids_between(links, source_id, output_id);
    if links.len() > 0 {
        let front = links.drop_last();
        let l = links.last();
        law_every_link_between_is_found(front, source_id, output_id);
        let rest = link_ids_between(front, source_id, output_id);
        crate::maps::lemma_push_contains(rest, l.link_id);
        assert forall|i: int|
            0 <= i < links.len() && (#[trigger] links[i]).output_node == source_id
                && links[i].input_node == output_id implies all.contains(links[i].link_id) by {
            if i < front.len() {
                assert(front[i] == links[i]);
            } else {
                assert(links[i] == l);
            }
        }
        assert forall|id: u32| #[trigger] all.contains(id) implies exists|i: int|
            0 <= i < links.len() && (#[trigger] links[i]).link_id == id && links[i].output_node
                == source_id && links[i].input_node == output_id by {
            if rest.contains(id) {
                let i = choose|i: int|
                    0 <= i < front.len() && (#[trigger] front[i]).link_id == id
                        && front[i].output_node == source_id && front[i].input_node == output_id;
                assert(links[i] == front[i]);
            } else {
                assert(links[links.len() - 1] == l);
            }
        }
    }
}

/// The ids stand in the order of the links: those of a listing in two parts are
/// those of the first part, then those of the second.
pub proof fn law_link_ids_stand_in_order(
    a: Seq<LinkInfo>,
    b: Seq<LinkInfo>,
    source_id: u32,
    output_id: u32,
)
    ensures
        link_ids_between(a + b, source_id, output_id) == link_ids_between(a, source_id, output_id)
            + link_ids_between(b, source_id, output_id),
    decreases b.len(),
{
    if b.len() == 0 {
        assert(a + b =~= a);
        assert(link_ids_between(a, source_id, output_id) + Seq::<u32>::empty()
            =~= link_ids_between(a, source_id, output_id));
    } else {
        law_link_ids_stand_in_order(a, b.drop_last(), source_id, output_id);
        assert((a + b).drop_last() =~= a + b.drop_last());
        assert((a + b).last() == b.last());
        assert(link_ids_between(a + b, source_id, output_id) =~= link_ids_between(
            a,
            source_id,
            output_id,
        ) + link_ids_between(b, source_id, output_id));
    }
}

/// The snapshot once the globals with these ids are gone.
pub open spec fn without_globals(r: RegistryView, ids: Seq<u32>) -> RegistryView
    decreases ids.len(),
{
    if ids.len() == 0 {
        r
    } else {
        without_global(without_globals(r, ids.drop_last()), ids.last())
    }
}

proof fn lemma_without_globals(r: RegistryView, ids: Seq<u32>)
    ensures
        forall|k: u32| #[trigger]
            without_globals(r, ids).links.contains_key(k) <==> r.links.contains_key(k)
                && !ids.contains(k),
        forall|k: u32| #[trigger]
            without_globals(r, ids).links.contains_key(k) ==> without_globals(r, ids).links[k]
                == r.links[k],
    decreases ids.len(),
{
    if ids.len() > 0 {
        lemma_without_globals(r, ids.drop_last());
        assert(ids =~= ids.drop_last().push(ids.last()));
        crate::maps::lemma_push_contains(ids.drop_last(), ids.last());
        let before = without_globals(r, ids.drop_last());
        assert(without_globals(r, ids).links == before.links.remove(ids.last()));
        assert forall|k: u32| #[trigger]
            without_globals(r, ids).links.contains_key(k) <==> r.links.contains_key(k)
                && !ids.contains(k) by {
            assert(before.links.contains_key(k) <==> r.links.contains_key(k)
                && !ids.drop_last().contains(k));
            assert(ids.drop_last().push(ids.last()).contains(k) == ids.contains(k));
        }
        assert forall|k: u32| #[trigger]
            without_globals(r, ids).links.contains_key(k) implies without_globals(r, ids).links[k]
            == r.links[k] by {
            assert(before.links.contains_key(k));
        }
    }
}

/// Once the links handed out for a source and an output are destroyed, none leads
/// from the one to the other, and every other link is still there.
pub proof fn law_destroying_them_parts_the_two(
    r: RegistryView,
    listed: Seq<LinkInfo>,
    source_id: u32,
    output_id: u32,
)
    requires
        forall|k: u32| #[trigger]
            r.links.contains_key(k) ==> r.links[k].link_id == k && listed.contains(r.links[k]),
        forall|i: int|
            0 <= i < listed.len() ==> r.links.contains_key((#[trigger] listed[i]).link_id)
                && r.links[listed[i].link_id] == listed[i],
    ensures
        ({
            let left = without_globals(r, link_ids_between(listed, source_id, output_id)).links;
            &&& forall|k: u32| #[trigger]
                left.contains_key(k) ==> !(left[k].output_node == source_id && left[k].input_node
                    == output_id)
            &&& forall|k: u32| #[trigger]
                r.links.contains_key(k) && !(r.links[k].output_node == source_id
                    && r.links[k].input_node == output_id) ==> left.contains_key(k) && left[k]
                    == r.links[k]
        }),
{
    let ids = link_ids_between(listed, source_id, output_id);
    let left = without_globals(r, ids).links;
    lemma_without_globals(r, ids);
    law_every_link_between_is_found(listed, source_id, output_id);
    assert forall|k: u32| #[trigger] left.contains_key(k) implies !(left[k].output_node == source_id
        && left[k].input_node == output_id) by {
        assert(r.links.contains_key(k));
        let i = choose|i: int| 0 <= i < listed.len() && listed[i] == r.links[k];
        assert(listed[i].link_id == k);
    }
    assert forall|k: u32| #[trigger]
        r.links.contains_key(k) && !(r.links[k].output_node == source_id && r.links[k].input_node
            == output_id) implies left.contains_key(k) && left[k] == r.links[k] by {
        if ids.contains(k) {
            let i = choose|i: int|
                0 <= i < listed.len() && (#[trigger] listed[i]).link_id == k
                    && listed[i].output_node == source_id && listed[i].input_node == output_id;
            assert(r.links[listed[i].link_id] == listed[i]);
        }
    }
}

/// A node is playing from the moment a link into it appears until the last such
/// link is gone.
pub proof fn law_a_link_feeds_the_node_it_ends_at(r: RegistryView, id: u32, props: GlobalProps)
    requires
        props.node_name is None,
        props.port_name is None,
        props.link_output_node is Some,
        props.link_input_node is Some,
        parsed_u32(props.link_output_node->0@) is Some,
        parsed_u32(props.link_input_node->0@) is Some,
    ensures
        has_incoming(
            with_global(r, id, props).links,
            parsed_u32(props.link_input_node->0@)->0,
        ),
        forall|n: u32|
            n != parsed_u32(props.link_input_node->0@)->0 ==> has_incoming(
                with_global(r, id, props).links,
                n,
            ) == #[trigger] has_incoming(r.links.remove(id), n),
        forall|n: u32|
            (forall|k: u32| #[trigger] r.links.contains_key(k) ==> r.links[k].input_node != n)
                ==> !#[trigger] has_incoming(r.links, n),
        forall|k: u32| #[trigger]
            r.links.contains_key(k) ==> has_incoming(r.links, r.links[k].input_node),
{
    let after = with_global(r, id, props).links;
    let to = parsed_u32(props.link_input_node->0@)->0;
    assert(after.contains_key(id) && after[id].input_node == to);
    assert forall|n: u32| n != to implies has_incoming(after, n) == #[trigger] has_incoming(
        r.links.remove(id),
        n,
    ) by {
        if has_incoming(after, n) {
            let k = choose|k: u32| after.contains_key(k) && (#[trigger] after[k]).input_node == n;
            assert(r.links.remove(id).contains_key(k) && r.links.remove(id)[k].input_node == n);
        }
        if has_incoming(r.links.remove(id), n) {
            let k = choose|k: u32|
                r.links.remove(id).contains_key(k) && (#[trigger] r.links.remove(id)[k]).input_node
                    == n;
            assert(after.contains_key(k) && after[k].input_node == n);
        }
    }
}

/// Two ports count as linked exactly while a link joins the one to the other: from
/// when it appears until it is gone, and a link that shares only one of the two does
/// not count.
pub proof fn law_ports_are_linked_while_a_link_joins_them(
    r: RegistryView,
    id: u32,
    props: GlobalProps,
    spec: LinkSpec,
)
    requires
        props.node_name is None,
        props.port_name is None,
        props.link_output_node is Some,
        props.link_input_node is Some,
        props.link_output_port is Some,
        props.link_input_port is Some,
        parsed_u32(props.link_output_node->0@) is Some,
        parsed_u32(props.link_input_node->0@) is Some,
        parsed_u32(props.link_output_port->0@) is Some,
        parsed_u32(props.link_input_port->0@) is Some,
        !ports_linked(r.links, spec),
    ensures
        ports_linked(with_global(r, id, props).links, spec) <==> parsed_u32(
            props.link_output_port->0@,
        )->0 == spec.out_port && parsed_u32(props.link_input_port->0@)->0 == spec.in_port,
        !ports_linked(without_global(with_global(r, id, props), id).links, spec),
{
    let after = with_global(r, id, props).links;
    assert(after.contains_key(id));
    assert(after[id].output_port == parsed_u32(props.link_output_port->0@)->0);
    assert(after[id].input_port == parsed_u32(props.link_input_port->0@)->0);
    assert forall|k: u32| after.contains_key(k) && k != id implies r.links.contains_key(k)
        && r.links[k] == #[trigger] after[k] by {}
    if ports_linked(after, spec) {
        let k = choose|k: u32|
            after.contains_key(k) && (#[trigger] after[k]).output_port == spec.out_port
                && after[k].input_port == spec.in_port;
        assert(k == id);
    }
    let gone = without_global(with_global(r, id, props), id).links;
    if ports_linked(gone, spec) {
        let k = choose|k: u32|
            gone.contains_key(k) && (#[trigger] gone[k]).output_port == spec.out_port
                && gone[k].input_port == spec.in_port;
        assert(r.links.contains_key(k) && r.links[k] == gone[k]);
    }
}

/// A global that names itself stands among the nodes under its id, with that name;
/// one that names a port stands among the ports of the node it gives. Neither
/// touches anything else, and what says too little changes nothing.
pub proof fn law_globals_land_where_they_belong(r: RegistryView, id: u32, props: GlobalProps)
    ensures
        props.node_name is Some ==> {
            let after = with_global(r, id, props);
            &&& after.nodes.contains_key(id)
            &&& after.nodes[id].node_id == id
            &&& after.nodes[id].node_name == props.node_name->0
            &&& after.nodes[id].media_class == props.media_class
            &&& after.nodes.remove(id) == r.nodes.remove(id)
            &&& after.ports == r.ports
            &&& after.links == r.links
        },
        props.node_name is None && props.port_name is Some && props.port_direction is Some
            && props.node_id is Some && parsed_u32(props.node_id->0@) is Some ==> {
            let after = with_global(r, id, props);
            &&& after.ports.contains_key(id)
            &&& after.ports[id].port_id == id
            &&& after.ports[id].node_id == parsed_u32(props.node_id->0@)->0
            &&& after.ports[id].port_name == props.port_name->0
            &&& after.ports[id].direction == props.port_direction->0
            &&& after.ports.remove(id) == r.ports.remove(id)
            &&& after.nodes == r.nodes
            &&& after.links == r.links
        },
        props.node_name is None && props.port_name is None && (props.link_output_node is None
            || props.link_input_node is None) ==> with_global(r, id, props) == r,
        props.node_name is None && props.port_name is None && props.link_output_node is Some
            && props.link_input_node is Some && parsed_u32(props.link_output_node->0@) is Some
            && parsed_u32(props.link_input_node->0@) is Some ==> {
            let after = with_global(r, id, props);
            &&& after.links.contains_key(id)
            &&& after.links[id].link_id == id
            &&& after.links[id].output_node == parsed_u32(props.link_output_node->0@)->0
            &&& after.links[id].input_node == parsed_u32(props.link_input_node->0@)->0
            &&& after.links.remove(id) == r.links.remove(id)
            &&& after.nodes == r.nodes
            &&& after.ports == r.ports
        },
{
    let after = with_global(r, id, props);
    assert(after.nodes.remove(id) =~= r.nodes.remove(id));
    assert(after.ports.remove(id) =~= r.ports.remove(id));
    assert(after.links.remove(id) =~= r.links.remove(id));
}

// ---- link commands -----------------------------------------------------------

/// How one link request went.
pub enum LinkOutcome {
    /// The ports were linked before; nothing was created.
    AlreadyLinked,
    /// A link was created.
    Linked,
    /// Creating it failed, with this error.
    Failed(String),
}

/// What is reported of one link request.
pub open spec fn link_message(spec: LinkSpec, outcome: LinkOutcome) -> Seq<char> {
    let out_port = decimal(spec.out_port as int);
    let in_port = decimal(spec.in_port as int);
    match outcome {
        LinkOutcome::AlreadyLinked => "ports "@ + out_port + " -> "@ + in_port
            + " already linked"@,
        LinkOutcome::Linked => "linked port "@ + out_port + " -> "@ + in_port,
        LinkOutcome::Failed(e) => "failed to link port "@ + out_port + " -> "@ + in_port + ": "@
            + e@,
    }
}

pub open spec fn link_messages(specs: Seq<LinkSpec>, outcomes: Seq<LinkOutcome>) -> Seq<Seq<char>> {
    Seq::new(specs.len(), |i: int| link_message(specs[i], outcomes[i]))
}

pub open spec fn any_failed(outcomes: Seq<LinkOutcome>) -> bool {
    exists|i: int| 0 <= i < outcomes.len() && (#[trigger] outcomes[i]) is Failed
}

fn message_for(spec: &LinkSpec, outcome: &LinkOutcome) -> (r: String)
    ensures
        r@ == link_message(*spec, *outcome),
{
    let out_port = decimal_of(spec.out_port as u64);
    let in_port = decimal_of(spec.in_port as u64);
    match outcome {
        LinkOutcome::AlreadyLinked => {
            let mut m = String::from_str("ports ");
            m.append(&out_port);
            m.append(" -> ");
            m.append(&in_port);
            m.append(" already linked");
            m
        },
        LinkOutcome::Linked => {
            let mut m = String::from_str("linked port ");
            m.append(&out_port);
            m.append(" -> ");
            m.append(&in_port);
            m
        },
        LinkOutcome::Failed(e) => {
            let mut m = String::from_str("failed to link port ");
            m.append(&out_port);
            m.append(" -> ");
            m.append(&in_port);
            m.append(": ");
            m.append(e);
            m
        },
    }
}

/// The reply to a request to create links, from how each went: one message per
/// link, joined by `; `. It is an error where any creation failed.
pub fn create_links_reply(specs: &Vec<LinkSpec>, outcomes: &Vec<LinkOutcome>) -> (r: Result<
    String,
    String,
>)
    requires
        specs@.len() == outcomes@.len(),
    ensures
        r is Err <==> any_failed(outcomes@),
        (match r {
            Ok(m) => m@,
            Err(m) => m@,
        }) == join_spec(link_messages(specs@, outcomes@), "; "@),
{
    let mut messages: Vec<String> = Vec::new();
    let mut ok = true;
    let mut i: usize = 0;
    while i < specs.len()
        invariant
            specs@.len() == outcomes@.len(),
            i <= specs@.len(),
            views(messages@) == link_messages(specs@, outcomes@).take(i as int),
            ok == !any_failed(outcomes@.take(i as int)),
        decreases specs.len() - i,
    {
        let m = message_for(&specs[i], &outcomes[i]);
        let ghost before = views(messages@);
        messages.push(m);
        proof {
            assert(views(messages@) =~= before.push(m@));
            assert(views(messages@) =~= link_messages(specs@, outcomes@).take(i + 1));
            let o = outcomes@;
            if any_failed(o.take(i as int)) {
                let j = choose|j: int| 0 <= j < i && (#[trigger] o.take(i as int)[j]) is Failed;
                assert(o.take(i + 1)[j] is Failed);
            }
            if any_failed(o.take(i + 1)) {
                let j = choose|j: int| 0 <= j < i + 1 && (#[trigger] o.take(i + 1)[j]) is Failed;
                if j < i {
                    assert(o.take(i as int)[j] is Failed);
                }
            }
            if o[i as int] is Failed {
                assert(o.take(i + 1)[i as int] is Failed);
            }
        }
        match &outcomes[i] {
            LinkOutcome::Failed(_) => {
                ok = false;
            },
            _ => {},
        }
        i += 1;
    }
    proof {
        assert(outcomes@.take(i as int) =~= outcomes@);
        assert(link_messages(specs@, outcomes@).take(i as int) =~= link_messages(specs@, outcomes@));
    }
    let summary = join(&messages, "; ");
    if ok {
        Ok(summary)
    } else {
        Err(summary)
    }
}

pub open spec fn removed_messages(ids: Seq<u32>) -> Seq<Seq<char>> {
    ids.map_values(|id: u32| "removed link "@ + decimal(id as int))
}

/// The reply to a request to destroy links. A link that was gone already counts
/// as removed.
pub fn destroy_links_reply(link_ids: &Vec<u32>) -> (r: String)
    ensures
        r@ == join_spec(removed_messages(link_ids@), "; "@),
{
    let mut messages: Vec<String> = Vec::new();
    let mut i: usize = 0;
    while i < link_ids.len()
        invariant
            i <= link_ids@.len(),
            views(messages@) == removed_messages(link_ids@).take(i as int),
        decreases link_ids.len() - i,
    {
        let mut m = String::from_str("removed link ");
        push_decimal(&mut m, link_ids[i] as u64);
        let ghost before = views(messages@);
        messages.push(m);
        assert(views(messages@) =~= before.push(m@));
        assert(views(messages@) =~= removed_messages(link_ids@).take(i + 1));
        i += 1;
    }
    assert(removed_messages(link_ids@).take(i as int) =~= removed_messages(link_ids@));
    join(&messages, "; ")
}

// ---- loaded modules ----------------------------------------------------------

/// The modules loaded into this daemon's context, by the node they provide.
pub struct ModuleTable {
    pub loaded: NameSet,
}

impl ModuleTable {
    pub fn new() -> (r: Self)
        ensures
            r.loaded@ == Set::<Seq<char>>::empty(),
    {
        ModuleTable { loaded: NameSet::new() }
    }

    /// Whether a module may be loaded for `node_name`: refused where one is.
    pub fn check_load(&self, node_name: &str) -> (r: Result<(), String>)
        ensures
            match r {
                Ok(()) => !self.loaded@.contains(node_name@),
                Err(e) => self.loaded@.contains(node_name@) && e@ == "a module for '"@ + node_name@
                    + "' is already loaded"@,
            },
    {
        if self.loaded.contains(node_name) {
            let mut m = String::from_str("a module for '");
            m.append(node_name);
            m.append("' is already loaded");
            return Err(m);
        }
        Ok(())
    }

    /// Notes that a module was loaded for `node_name`.
    pub fn note_loaded(&mut self, node_name: String)
        ensures
            final(self).loaded@ == old(self).loaded@.insert(node_name@),
    {
        self.loaded.insert(node_name);
    }

    /// Forgets the module of `node_name`. Says whether there was one to unload;
    /// unloading what is not loaded is no error.
    pub fn unload(&mut self, node_name: &str) -> (r: bool)
        ensures
            final(self).loaded@ == old(self).loaded@.remove(node_name@),
            r == old(self).loaded@.contains(node_name@),
    {
        self.loaded.remove(node_name)
    }
}

// ---- profiling ---------------------------------------------------------------

/// What a request to turn profiling on or off comes to.
#[derive(Clone, Copy, Debug, PartialEq, Eq, Structural)]
pub enum ProfilingAction {
    /// It is already as asked.
    Nothing,
    /// Bind the profiler with this id.
    Bind(u32),
    /// It was asked for, but there is no profiler in the graph.
    NoProfiler,
    /// Drop the subscription and clear the counts.
    Drop,
}

/// The profiler in the graph, and whether it is listened to.
#[derive(Clone, Copy, Debug, PartialEq, Eq, Structural)]
pub struct Profiler {
    pub id: Option<u32>,
    pub armed: bool,
}

impl Profiler {
    /// No profiler was seen yet.
    pub fn new() -> (r: Self)
        ensures
            r == (Profiler { id: None, armed: false }),
    {
        Profiler { id: None, armed: false }
    }

    /// A profiler appeared.
    pub fn appeared(&mut self, id: u32)
        ensures
            *final(self) == (Profiler { id: Some(id), armed: old(self).armed }),
    {
        self.id = Some(id);
    }

    /// A global is gone. Where it was the profiler it is not listened to any longer;
    /// says whether a subscription is to be dropped.
    pub fn removed(&mut self, id: u32) -> (drop: bool)
        ensures
            drop == (old(self).id == Some(id) && old(self).armed),
            *final(self) == if old(self).id == Some(id) {
                Profiler { id: None, armed: false }
            } else {
                *old(self)
            },
    {
        let ours = match self.id {
            Some(known) => known == id,
            None => false,
        };
        if !ours {
            return false;
        }
        let drop = self.armed;
        self.id = None;
        self.armed = false;
        drop
    }

    /// What a request to turn profiling on (`enabled`) or off comes to.
    pub fn request(&mut self, enabled: bool) -> (r: ProfilingAction)
        ensures
            r == if enabled && old(self).armed {
                ProfilingAction::Nothing
            } else if enabled {
                match old(self).id {
                    Some(id) => ProfilingAction::Bind(id),
                    None => ProfilingAction::NoProfiler,
                }
            } else if old(self).armed {
                ProfilingAction::Drop
            } else {
                ProfilingAction::Nothing
            },
            *final(self) == (Profiler { id: old(self).id, armed: enabled && old(self).armed }),
    {
        if enabled {
            if self.armed {
                return ProfilingAction::Nothing;
            }
            match self.id {
                Some(id) => ProfilingAction::Bind(id),
                None => ProfilingAction::NoProfiler,
            }
        } else if self.armed {
            self.armed = false;
            ProfilingAction::Drop
        } else {
            ProfilingAction::Nothing
        }
    }

    /// The profiler was bound, or refused to be.
    pub fn bound(&mut self, ok: bool)
        ensures
            *final(self) == (Profiler { id: old(self).id, armed: old(self).armed || ok }),
    {
        if ok {
            self.armed = true;
        }
    }
}

/// A request for links fails exactly where creating one of them did, and a link that
/// was there already is no failure.
pub proof fn law_one_failed_link_fails_the_request(outcomes: Seq<LinkOutcome>)
    ensures
        forall|i: int| 0 <= i < outcomes.len() && (#[trigger] outcomes[i]) is Failed ==> any_failed(
            outcomes,
        ),
        (forall|i: int|
            0 <= i < outcomes.len() ==> (#[trigger] outcomes[i]) is Linked
                || outcomes[i] is AlreadyLinked) ==> !any_failed(outcomes),
{
}

/// Every link that was asked for is reported in its place, with its two ports and, where
/// it failed, with the error.
pub proof fn law_every_link_is_reported(specs: Seq<LinkSpec>, outcomes: Seq<LinkOutcome>, i: int)
    requires
        specs.len() == outcomes.len(),
        0 <= i < specs.len(),
    ensures
        ({
            let told = link_messages(specs, outcomes);
            let ports = decimal(specs[i].out_port as int) + " -> "@ + decimal(
                specs[i].in_port as int,
            );
            &&& told.len() == specs.len()
            &&& outcomes[i] is Linked ==> told[i] == "linked port "@ + ports
            &&& outcomes[i] is AlreadyLinked ==> told[i] == "ports "@ + ports + " already linked"@
            &&& outcomes[i] matches LinkOutcome::Failed(e) ==> told[i] == "failed to link port "@
                + ports + ": "@ + e@
        }),
{
    let told = link_messages(specs, outcomes);
    let ports = decimal(specs[i].out_port as int) + " -> "@ + decimal(specs[i].in_port as int);
    match outcomes[i] {
        LinkOutcome::Linked => {
            assert(told[i] =~= "linked port "@ + ports);
        },
        LinkOutcome::AlreadyLinked => {
            assert(told[i] =~= "ports "@ + ports + " already linked"@);
        },
        LinkOutcome::Failed(e) => {
            assert(told[i] =~= "failed to link port "@ + ports + ": "@ + e@);
        },
    }
}

} // verus!
