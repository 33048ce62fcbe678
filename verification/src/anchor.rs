//! The way of RTP sources to RAOP outputs.
//!
//! Neither end can drive a cycle of the graph, so a direct link between them stalls it.
//! A null sink stands in between: the sources play into it, and the outputs are fed
//! from its monitor and follow its clock.

use crate::graph::RegistryState;
use crate::maps::{in_order, lemma_in_order, NameSet};
use crate::modules::{is_rtp_source_node, rtp_source_node, RAOP_NODE_PREFIX};
use crate::routing::{id_of, node_id_for, routes, Route, RoutingLink};
use crate::text::{starts_with, views};
use vstd::prelude::*;

verus! {

/// The sink in between.
pub const ANCHOR_NODE_NAME: &'static str = "rtp-raop-anchor";

/// Whether a source cannot drive the graph, so that it needs the sink on its way to a
/// RAOP output.
pub fn source_needs_raop_anchor(source: &str) -> (r: bool)
    ensures
        r == rtp_source_node(source@),
{
    is_rtp_source_node(source)
}

/// Whether an output is a RAOP one.
pub fn is_raop_output(output: &str) -> (r: bool)
    ensures
        r == RAOP_NODE_PREFIX@.is_prefix_of(output@),
{
    starts_with(output, RAOP_NODE_PREFIX)
}

/// A route that goes by way of the sink.
pub open spec fn anchored(l: Route) -> bool {
    rtp_source_node(l.0) && RAOP_NODE_PREFIX@.is_prefix_of(l.1)
}

/// The sources that play into the sink.
pub open spec fn anchored_sources(intent: Seq<Route>) -> Set<Seq<char>> {
    Set::new(
        |s: Seq<char>|
            exists|i: int| 0 <= i < intent.len() && #[trigger] anchored(intent[i]) && intent[i].0 == s,
    )
}

/// The outputs that are fed from its monitor.
pub open spec fn anchored_outputs(intent: Seq<Route>) -> Set<Seq<char>> {
    Set::new(
        |o: Seq<char>|
            exists|i: int| 0 <= i < intent.len() && #[trigger] anchored(intent[i]) && intent[i].1 == o,
    )
}

/// What is to become of the sink.
#[derive(Clone, Copy, Debug, PartialEq, Eq, Structural)]
pub enum AnchorStep {
    /// It is not needed, and not there.
    Leave,
    /// It is not needed: destroy it, and its links with it.
    Destroy { node_id: u32 },
    /// It is needed: create it, wait for it, then wire it.
    Create,
    /// It is there: wire it.
    Wire,
}

/// What is to be done about the sink.
pub struct AnchorPlan {
    pub step: AnchorStep,
    pub sources: Vec<String>,
    pub targets: Vec<String>,
}

/// What is to become of the sink.
pub open spec fn anchor_step(needed: bool, there: Option<u32>) -> AnchorStep {
    if needed {
        if there is Some {
            AnchorStep::Wire
        } else {
            AnchorStep::Create
        }
    } else {
        match there {
            Some(node_id) => AnchorStep::Destroy { node_id },
            None => AnchorStep::Leave,
        }
    }
}

/// What is to be done about the sink, from the routes and the graph alone, so that a
/// sink that an earlier run left behind is found again.
pub fn anchor_plan(intent: &[RoutingLink], reg: &RegistryState) -> (r: AnchorPlan)
    ensures
        views(r.sources@) == in_order(anchored_sources(routes(intent@))),
        views(r.targets@) == in_order(anchored_outputs(routes(intent@))),
        r.step == anchor_step(
            anchored_outputs(routes(intent@)) != Set::<Seq<char>>::empty(),
            id_of(*reg, ANCHOR_NODE_NAME@),
        ),
{
    let ghost all = routes(intent@);
    let mut sources = NameSet::new();
    let mut targets = NameSet::new();
    let mut i: usize = 0;
    while i < intent.len()
        invariant
            i <= intent@.len(),
            all == routes(intent@),
            forall|s: Seq<char>| #[trigger]
                sources@.contains(s) <==> exists|j: int|
                    0 <= j < i && #[trigger] anchored(all[j]) && all[j].0 == s,
            forall|o: Seq<char>| #[trigger]
                targets@.contains(o) <==> exists|j: int|
                    0 <= j < i && #[trigger] anchored(all[j]) && all[j].1 == o,
        decreases intent.len() - i,
    {
        let l = &intent[i];
        let ghost s0 = sources@;
        let ghost t0 = targets@;
        assert(all[i as int] == (l.source@, l.output@));
        if source_needs_raop_anchor(&l.source) && is_raop_output(&l.output) {
            sources.insert(l.source.clone());
            targets.insert(l.output.clone());
        }
        proof {
            assert forall|s: Seq<char>| #[trigger] sources@.contains(s) <==> exists|j: int|
                0 <= j < i + 1 && #[trigger] anchored(all[j]) && all[j].0 == s by {
                if s0.contains(s) {
                    let j = choose|j: int|
                        0 <= j < i && #[trigger] anchored(all[j]) && all[j].0 == s;
                    assert(anchored(all[j]));
                }
                if sources@.contains(s) && !s0.contains(s) {
                    assert(anchored(all[i as int]));
                }
            }
            assert forall|o: Seq<char>| #[trigger] targets@.contains(o) <==> exists|j: int|
                0 <= j < i + 1 && #[trigger] anchored(all[j]) && all[j].1 == o by {
                if t0.contains(o) {
                    let j = choose|j: int|
                        0 <= j < i && #[trigger] anchored(all[j]) && all[j].1 == o;
                    assert(anchored(all[j]));
                }
                if targets@.contains(o) && !t0.contains(o) {
                    assert(anchored(all[i as int]));
                }
            }
        }
        i += 1;
    }
    let source_names = sources.to_vec();
    let target_names = targets.to_vec();
    proof {
        assert(sources@ =~= anchored_sources(all));
        assert(targets@ =~= anchored_outputs(all));
        lemma_in_order(views(source_names@));
        assert(views(source_names@).to_set() =~= sources@);
        lemma_in_order(views(target_names@));
        assert(views(target_names@).to_set() =~= targets@);
    }
    let there = node_id_for(reg, ANCHOR_NODE_NAME);
    let step = if targets.is_empty() {
        assert(targets@ =~= Set::<Seq<char>>::empty());
        match there {
            Some(node_id) => AnchorStep::Destroy { node_id },
            None => AnchorStep::Leave,
        }
    } else {
        assert(targets@.contains(targets.names()[0]));
        if there.is_some() {
            AnchorStep::Wire
        } else {
            AnchorStep::Create
        }
    };
    AnchorPlan { step, sources: source_names, targets: target_names }
}

/// Two nodes to be joined by name.
pub struct Wire {
    pub source: String,
    pub output: String,
    /// From the source's monitor.
    pub monitor: bool,
}

/// The model of a [`Wire`].
pub type WireView = (Seq<char>, Seq<char>, bool);

/// The models of wires.
pub open spec fn wires(s: Seq<Wire>) -> Seq<WireView> {
    s.map_values(|w: Wire| (w.source@, w.output@, w.monitor))
}

/// The wires of the sink: every source into it, then its monitor into every output.
pub open spec fn anchor_wires(sources: Seq<Seq<char>>, targets: Seq<Seq<char>>) -> Seq<WireView> {
    sources.map_values(|s: Seq<char>| (s, ANCHOR_NODE_NAME@, false)) + targets.map_values(
        |t: Seq<char>| (ANCHOR_NODE_NAME@, t, true),
    )
}

impl AnchorPlan {
    /// The wires of the sink.
    pub fn wiring(&self) -> (r: Vec<Wire>)
        ensures
            wires(r@) == anchor_wires(views(self.sources@), views(self.targets@)),
    {
        let mut out: Vec<Wire> = Vec::new();
        let n: usize = self.sources.len();
        let mut i: usize = 0;
        while i < n
            invariant
                i <= n,
                n == self.sources@.len(),
                out@.len() == i,
                forall|j: int|
                    0 <= j < i ==> #[trigger] wires(out@)[j] == (
                        self.sources@[j]@,
                        ANCHOR_NODE_NAME@,
                        false,
                    ),
            decreases n - i,
        {
            let ghost before = wires(out@);
            out.push(
                Wire {
                    source: self.sources[i].clone(),
                    output: String::from_str(ANCHOR_NODE_NAME),
                    monitor: false,
                },
            );
            assert(forall|j: int| 0 <= j < i ==> #[trigger] wires(out@)[j] == before[j]);
            i += 1;
        }
        let m: usize = self.targets.len();
        let mut k: usize = 0;
        while k < m
            invariant
                k <= m,
                m == self.targets@.len(),
                n == self.sources@.len(),
                out@.len() == n + k,
                forall|j: int|
                    0 <= j < n ==> #[trigger] wires(out@)[j] == (
                        self.sources@[j]@,
                        ANCHOR_NODE_NAME@,
                        false,
                    ),
                forall|j: int|
                    n <= j < n + k ==> #[trigger] wires(out@)[j] == (
                        ANCHOR_NODE_NAME@,
                        self.targets@[j - n]@,
                        true,
                    ),
            decreases m - k,
        {
            let ghost before = wires(out@);
            out.push(
                Wire {
                    source: String::from_str(ANCHOR_NODE_NAME),
                    output: self.targets[k].clone(),
                    monitor: true,
                },
            );
            assert(forall|j: int| 0 <= j < n + k ==> #[trigger] wires(out@)[j] == before[j]);
            k += 1;
        }
        assert(wires(out@) =~= anchor_wires(views(self.sources@), views(self.targets@)));
        out
    }
}

/// No RTP source is ever joined to a RAOP output directly: of every wire of the sink,
/// the sink is one end.
pub proof fn law_every_wire_meets_the_anchor(
    sources: Seq<Seq<char>>,
    targets: Seq<Seq<char>>,
    i: int,
)
    requires
        0 <= i < anchor_wires(sources, targets).len(),
    ensures
        ({
            let w = anchor_wires(sources, targets)[i];
            if i < sources.len() {
                w.1 == ANCHOR_NODE_NAME@ && !w.2
            } else {
                w.0 == ANCHOR_NODE_NAME@ && w.2
            }
        }),
{
}

/// A route goes by way of the sink exactly where an RTP source is to play on a RAOP
/// output: each such source plays into the sink and each such output is fed from it,
/// and no others.
pub proof fn law_anchored_routes_meet_at_the_sink(intent: Seq<Route>, s: Seq<char>, o: Seq<char>)
    ensures
        intent.contains((s, o)) && rtp_source_node(s) && RAOP_NODE_PREFIX@.is_prefix_of(o)
            ==> anchored_sources(intent).contains(s) && anchored_outputs(intent).contains(o),
        anchored_sources(intent).contains(s) ==> rtp_source_node(s) && exists|i: int|
            0 <= i < intent.len() && (#[trigger] intent[i]).0 == s
                && RAOP_NODE_PREFIX@.is_prefix_of(intent[i].1),
        anchored_outputs(intent).contains(o) ==> RAOP_NODE_PREFIX@.is_prefix_of(o) && exists|i: int|
            0 <= i < intent.len() && (#[trigger] intent[i]).1 == o && rtp_source_node(intent[i].0),
{
    if intent.contains((s, o)) && rtp_source_node(s) && RAOP_NODE_PREFIX@.is_prefix_of(o) {
        let i = choose|i: int| 0 <= i < intent.len() && intent[i] == (s, o);
        assert(anchored(intent[i]));
    }
    if anchored_sources(intent).contains(s) {
        let i = choose|i: int|
            0 <= i < intent.len() && #[trigger] anchored(intent[i]) && intent[i].0 == s;
        assert(intent[i].0 == s);
    }
    if anchored_outputs(intent).contains(o) {
        let i = choose|i: int|
            0 <= i < intent.len() && #[trigger] anchored(intent[i]) && intent[i].1 == o;
        assert(intent[i].1 == o);
    }
}

/// Every source is wired into the sink, and the sink's monitor to every output.
pub proof fn law_both_sides_of_the_sink_are_wired(
    sources: Seq<Seq<char>>,
    targets: Seq<Seq<char>>,
    x: Seq<char>,
)
    ensures
        sources.contains(x) ==> anchor_wires(sources, targets).contains(
            (x, ANCHOR_NODE_NAME@, false),
        ),
        targets.contains(x) ==> anchor_wires(sources, targets).contains(
            (ANCHOR_NODE_NAME@, x, true),
        ),
        anchor_wires(sources, targets).len() == sources.len() + targets.len(),
{
    let all = anchor_wires(sources, targets);
    if sources.contains(x) {
        let i = choose|i: int| 0 <= i < sources.len() && sources[i] == x;
        assert(all[i] == (x, ANCHOR_NODE_NAME@, false));
    }
    if targets.contains(x) {
        let i = choose|i: int| 0 <= i < targets.len() && targets[i] == x;
        assert(all[sources.len() + i] == (ANCHOR_NODE_NAME@, x, true));
    }
}

/// The sink is there exactly while it is needed: it is made where it is missing, wired
/// where it is there, and destroyed, as the node it is, once nothing needs it.
pub proof fn law_the_sink_is_there_while_it_is_needed(id: u32)
    ensures
        anchor_step(true, None) == AnchorStep::Create,
        anchor_step(true, Some(id)) == AnchorStep::Wire,
        anchor_step(false, Some(id)) == (AnchorStep::Destroy { node_id: id }),
        anchor_step(false, None) == AnchorStep::Leave,
{
}

} // verus!
