//! Port bookkeeping and link planning: which monitor port of the virtual
//! sink feeds which playback port of a target device, and the properties of
//! the objects that the merger asks PipeWire to create.
use std::collections::HashMap;
use vstd::prelude::*;

use crate::global::{
    lemma_lookup_finds, lookup, prop_get, props_view, GlobalInfo, GlobalView, ObjectKind, PropsView,
};
use crate::keyed::{kept_entries, keys_of, lemma_picked_all, lemma_picked_step, picked};
use crate::text::{
    channel_of, channel_suffix, decimal, decimal_string, parse_u32, parse_u32_spec, push_str,
    same_text,
};

verus! {

broadcast use vstd::std_specs::hash::group_hash_axioms;

/// The direction of a port.
#[derive(Clone, Copy, Debug, PartialEq, Eq, Structural)]
pub enum PortDirection {
    /// A port that takes audio in (a device's playback port).
    In,
    /// A port that gives audio out (a sink's monitor port).
    Out,
}

/// A port discovered in the registry.
#[derive(Clone, Debug)]
pub struct PortInfo {
    /// PipeWire global id of the port.
    pub id: u32,
    /// Global id of the node the port belongs to.
    pub node_id: u32,
    /// `port.name`, such as `monitor_FL` or `playback_FR`.
    pub name: String,
    /// Whether the port takes audio in or gives it out.
    pub direction: PortDirection,
}

/// The model of a `PortInfo`.
pub struct PortView {
    pub id: u32,
    pub node_id: u32,
    pub name: Seq<char>,
    pub direction: PortDirection,
}

impl View for PortInfo {
    type V = PortView;

    open spec fn view(&self) -> PortView {
        PortView { id: self.id, node_id: self.node_id, name: self.name@, direction: self.direction }
    }
}

impl PortInfo {
    /// A copy of this record.
    pub fn duplicate(&self) -> (r: PortInfo)
        ensures
            r@ == self@,
    {
        PortInfo {
            id: self.id,
            node_id: self.node_id,
            name: self.name.clone(),
            direction: self.direction,
        }
    }
}

/// The models of a list of ports.
pub open spec fn ports_view(s: Seq<PortInfo>) -> Seq<PortView> {
    s.map_values(|p: PortInfo| p@)
}

/// The map that a list of (name, id) pairs stands for: a later pair for a
/// name replaces an earlier one.
pub open spec fn assoc_map(s: Seq<(Seq<char>, u32)>) -> Map<Seq<char>, u32>
    decreases s.len(),
{
    if s.len() == 0 {
        Map::empty()
    } else {
        assoc_map(s.drop_last()).insert(s.last().0, s.last().1)
    }
}

/// The state of a port tracker.
pub struct PortsView {
    /// All known ports by global id.
    pub ports: Map<u32, PortView>,
    /// The global id of each node, by `node.name`.
    pub node_ids: Map<Seq<char>, u32>,
}

impl PortsView {
    /// Every port sits under its own id.
    pub open spec fn well_formed(self) -> bool {
        &&& self.ports.dom().finite()
        &&& forall|k: u32| #[trigger] self.ports.contains_key(k) ==> self.ports[k].id == k
    }

    /// A port tracker that has seen nothing.
    pub open spec fn initial() -> PortsView {
        PortsView { ports: Map::empty(), node_ids: Map::empty() }
    }

    /// The port that global `id` with dictionary `p` describes, when it has
    /// a `node.id`, a `port.name` and a `port.direction` of `in` or `out`. A
    /// `node.id` that is not a number counts as node 0.
    pub open spec fn port_of(id: u32, p: PropsView) -> Option<PortView> {
        match lookup(p, "node.id"@) {
            None => None,
            Some(node) => match lookup(p, "port.name"@) {
                None => None,
                Some(name) => match lookup(p, "port.direction"@) {
                    None => None,
                    Some(dir) => if dir == "in"@ {
                        Some(
                            PortView {
                                id,
                                node_id: match parse_u32_spec(node) {
                                    Some(v) => v,
                                    None => 0,
                                },
                                name,
                                direction: PortDirection::In,
                            },
                        )
                    } else if dir == "out"@ {
                        Some(
                            PortView {
                                id,
                                node_id: match parse_u32_spec(node) {
                                    Some(v) => v,
                                    None => 0,
                                },
                                name,
                                direction: PortDirection::Out,
                            },
                        )
                    } else {
                        None
                    },
                },
            },
        }
    }

    /// The registry announced `g`: a port is recorded under its id, a
    /// node's id is recorded under its `node.name`; anything else, or a
    /// global without the properties that say so, changes nothing.
    pub open spec fn on_global(self, g: GlobalView) -> PortsView {
        match g.props {
            None => self,
            Some(p) => if g.kind == ObjectKind::Port {
                match PortsView::port_of(g.id, p) {
                    Some(port) => PortsView { ports: self.ports.insert(g.id, port), ..self },
                    None => self,
                }
            } else if g.kind == ObjectKind::Node {
                match lookup(p, "node.name"@) {
                    Some(name) => PortsView { node_ids: self.node_ids.insert(name, g.id), ..self },
                    None => self,
                }
            } else {
                self
            },
        }
    }

    /// The ports of node `node` with direction `dir`.
    pub open spec fn ports_on(self, node: u32, dir: PortDirection) -> Set<PortView> {
        Set::new(
            |p: PortView|
                self.ports.contains_key(p.id) && self.ports[p.id] == p && p.node_id == node
                    && p.direction == dir,
        )
    }

    /// The ports with direction `dir` of the node named `name`; none when no
    /// node of that name is known.
    pub open spec fn ports_of(self, name: Seq<char>, dir: PortDirection) -> Set<PortView> {
        if self.node_ids.contains_key(name) {
            self.ports_on(self.node_ids[name], dir)
        } else {
            Set::empty()
        }
    }
}

/// `s` lists the ports of `set`, each once, in some order.
pub open spec fn lists(s: Seq<PortView>, set: Set<PortView>) -> bool {
    s.to_set() == set && s.no_duplicates()
}

/// Tracks the ports and node ids seen in the registry.
pub struct PortTracker {
    ports: HashMap<u32, PortInfo>,
    node_ids: Vec<(String, u32)>,
}

/// The model of a list of (name, id) pairs.
pub open spec fn pairs_view(s: Seq<(String, u32)>) -> Seq<(Seq<char>, u32)> {
    s.map_values(|e: (String, u32)| (e.0@, e.1))
}

impl View for PortTracker {
    type V = PortsView;

    closed spec fn view(&self) -> PortsView {
        PortsView {
            ports: self.ports@.map_values(|p: PortInfo| p@),
            node_ids: assoc_map(pairs_view(self.node_ids@)),
        }
    }
}

/// The last pair of `s` for a name decides the map's value for it.
proof fn lemma_assoc_map_skip_last(s: Seq<(Seq<char>, u32)>, k: Seq<char>)
    requires
        s.len() > 0,
        s.last().0 != k,
    ensures
        assoc_map(s).contains_key(k) == assoc_map(s.drop_last()).contains_key(k),
        assoc_map(s).contains_key(k) ==> assoc_map(s)[k] == assoc_map(s.drop_last())[k],
{
}

/// No two pairs of `s` have the same name.
pub open spec fn unique_names(s: Seq<(Seq<char>, u32)>) -> bool {
    forall|i: int, j: int| 0 <= i < j < s.len() ==> #[trigger] s[i].0 != #[trigger] s[j].0
}

/// Replacing the pair of a name, when names are unique, maps that name to
/// the new id and leaves the others.
proof fn lemma_assoc_map_update(s: Seq<(Seq<char>, u32)>, i: int, v: u32)
    requires
        unique_names(s),
        0 <= i < s.len(),
    ensures
        assoc_map(s.update(i, (s[i].0, v))) == assoc_map(s).insert(s[i].0, v),
    decreases s.len(),
{
    let k = s[i].0;
    let t = s.update(i, (k, v));
    if i == s.len() - 1 {
        assert(t.drop_last() =~= s.drop_last());
        assert(assoc_map(t) =~= assoc_map(s).insert(k, v));
    } else {
        assert(t.drop_last() =~= s.drop_last().update(i, (k, v)));
        assert(unique_names(s.drop_last()));
        lemma_assoc_map_update(s.drop_last(), i, v);
        assert(s.last().0 != k);
        assert(assoc_map(t) =~= assoc_map(s).insert(k, v));
    }
}

/// What the linking pass does for one monitor port of the virtual sink:
/// link it to a playback port of its channel, or, when the device has none,
/// leave it unlinked.
#[derive(Clone, Debug, PartialEq, Eq)]
pub struct PlannedLink {
    /// The monitor port of the virtual sink.
    pub output_port: u32,
    /// Its channel, such as `FL`.
    pub channel: String,
    /// The playback port of the target device on that channel, if any.
    pub input_port: Option<u32>,
}

/// The model of a `PlannedLink`.
pub struct PlannedLinkView {
    pub output_port: u32,
    pub channel: Seq<char>,
    pub input_port: Option<u32>,
}

impl View for PlannedLink {
    type V = PlannedLinkView;

    open spec fn view(&self) -> PlannedLinkView {
        PlannedLinkView { output_port: self.output_port, channel: self.channel@, input_port: self.input_port }
    }
}

/// The models of a list of planned links.
pub open spec fn plan_view(s: Seq<PlannedLink>) -> Seq<PlannedLinkView> {
    s.map_values(|l: PlannedLink| l@)
}

/// The first port of `pbs` whose name ends in channel `ch`.
pub open spec fn first_on_channel(pbs: Seq<PortView>, ch: Seq<char>) -> Option<PortView>
    decreases pbs.len(),
{
    if pbs.len() == 0 {
        None
    } else if channel_of(pbs[0].name) == ch {
        Some(pbs[0])
    } else {
        first_on_channel(pbs.drop_first(), ch)
    }
}

/// The plan for one monitor port: its channel, and the first playback port
/// of `pbs` on that channel.
pub open spec fn plan_for(m: PortView, pbs: Seq<PortView>) -> PlannedLinkView {
    PlannedLinkView {
        output_port: m.id,
        channel: channel_of(m.name),
        input_port: match first_on_channel(pbs, channel_of(m.name)) {
            Some(p) => Some(p.id),
            None => None,
        },
    }
}

/// The plan for the monitor ports `mons`, in their order: each is linked to
/// the first playback port of the same channel, or left unlinked when no
/// playback port has its channel.
pub open spec fn planned_links(mons: Seq<PortView>, pbs: Seq<PortView>) -> Seq<PlannedLinkView> {
    mons.map_values(|m: PortView| plan_for(m, pbs))
}

/// What `first_on_channel` finds is one of the ports, on that channel, and
/// it finds one whenever some port is on that channel.
pub proof fn lemma_first_on_channel(pbs: Seq<PortView>, ch: Seq<char>)
    ensures
        first_on_channel(pbs, ch) matches Some(p) ==> pbs.contains(p) && channel_of(p.name) == ch,
        first_on_channel(pbs, ch) is None <==> forall|i: int|
            0 <= i < pbs.len() ==> channel_of(#[trigger] pbs[i].name) != ch,
    decreases pbs.len(),
{
    if pbs.len() > 0 {
        lemma_first_on_channel(pbs.drop_first(), ch);
        if let Some(p) = first_on_channel(pbs.drop_first(), ch) {
            let j = choose|j: int| 0 <= j < pbs.drop_first().len() && pbs.drop_first()[j] == p;
            assert(pbs[j + 1] == p);
        }
        if channel_of(pbs[0].name) != ch {
            assert forall|i: int| 0 <= i < pbs.len() && channel_of(#[trigger] pbs[i].name) == ch implies i > 0
                && channel_of(pbs.drop_first()[i - 1].name) == ch by {}
        } else {
            assert(pbs[0] == pbs[0]);
        }
    }
}

/// Each monitor port gets one entry in the plan, in order, on its own
/// channel; it gets a playback port exactly when some playback port is on
/// that channel, and then that port is one of the playback ports and on the
/// same channel.
pub proof fn law_every_monitor_is_planned_on_its_channel(mons: Seq<PortView>, pbs: Seq<PortView>)
    ensures
        planned_links(mons, pbs).len() == mons.len(),
        forall|i: int|
            0 <= i < mons.len() ==> {
                let l = #[trigger] planned_links(mons, pbs)[i];
                &&& l.output_port == mons[i].id
                &&& l.channel == channel_of(mons[i].name)
                &&& (l.input_port is Some <==> exists|j: int|
                    0 <= j < pbs.len() && channel_of(#[trigger] pbs[j].name) == l.channel)
                &&& (l.input_port matches Some(id) ==> exists|p: PortView|
                    pbs.contains(p) && p.id == id && channel_of(p.name) == l.channel)
            },
{
    assert forall|i: int| 0 <= i < mons.len() implies {
        let l = #[trigger] planned_links(mons, pbs)[i];
        &&& l.output_port == mons[i].id
        &&& l.channel == channel_of(mons[i].name)
        &&& (l.input_port is Some <==> exists|j: int|
            0 <= j < pbs.len() && channel_of(#[trigger] pbs[j].name) == l.channel)
        &&& (l.input_port matches Some(id) ==> exists|p: PortView|
            pbs.contains(p) && p.id == id && channel_of(p.name) == l.channel)
    } by {
        lemma_first_on_channel(pbs, channel_of(mons[i].name));
    }
}

/// `l` goes from a monitor (output) port of the node named `sink` to a
/// playback (input) port of the node named `target`, and both ports are on
/// the same channel, `l.channel`.
pub open spec fn connects(t: PortsView, sink: Seq<char>, target: Seq<char>, l: PlannedLinkView) -> bool {
    exists|m: PortView, p: PortView|
        #![trigger t.ports_of(sink, PortDirection::Out).contains(m), t.ports_of(target, PortDirection::In).contains(p)]
        t.ports_of(sink, PortDirection::Out).contains(m) && t.ports_of(target, PortDirection::In).contains(p)
            && m.id == l.output_port && Some(p.id) == l.input_port && channel_of(m.name) == l.channel
            && channel_of(p.name) == l.channel
}

/// Every link that `link_plan` can plan goes from a monitor port of the
/// virtual sink to a playback port of the target device on the same channel
/// (`FL` to `FL`, `FR` to `FR`).
pub proof fn law_planned_links_connect_sink_to_target(
    t: PortsView,
    sink: Seq<char>,
    target: Seq<char>,
    ms: Seq<PortView>,
    ps: Seq<PortView>,
)
    requires
        lists(ms, t.ports_of(sink, PortDirection::Out)),
        lists(ps, t.ports_of(target, PortDirection::In)),
    ensures
        forall|i: int|
            0 <= i < planned_links(ms, ps).len() && (#[trigger] planned_links(ms, ps)[i]).input_port is Some
                ==> connects(t, sink, target, planned_links(ms, ps)[i]),
{
    assert forall|i: int|
        0 <= i < planned_links(ms, ps).len() && (#[trigger] planned_links(ms, ps)[i]).input_port is Some implies connects(
        t,
        sink,
        target,
        planned_links(ms, ps)[i],
    ) by {
        let m = ms[i];
        let l = planned_links(ms, ps)[i];
        lemma_first_on_channel(ps, channel_of(m.name));
        let p = first_on_channel(ps, channel_of(m.name))->0;
        assert(ms.contains(m));
        assert(ms.to_set().contains(m));
        assert(ps.to_set().contains(p));
    }
}

/// Why the ports of a device could not be linked.
#[derive(Clone, Debug, PartialEq, Eq)]
pub enum LinkError {
    /// The virtual sink of this name has no monitor ports.
    NoMonitorPorts(String),
    /// The target device of this name has no playback ports.
    NoPlaybackPorts(String),
}

/// The message shown for a link error.
pub open spec fn link_message_spec(e: LinkError) -> Seq<char> {
    match e {
        LinkError::NoMonitorPorts(n) => "no monitor ports found on '"@ + n@ + "'"@,
        LinkError::NoPlaybackPorts(n) => "no playback ports found on '"@ + n@ + "'"@,
    }
}

impl LinkError {
    /// The message shown to the user.
    pub fn message(&self) -> (r: String)
        ensures
            r@ == link_message_spec(*self),
    {
        let mut s = String::new();
        match self {
            LinkError::NoMonitorPorts(n) => {
                push_str(&mut s, "no monitor ports found on '");
                push_str(&mut s, n.as_str());
            },
            LinkError::NoPlaybackPorts(n) => {
                push_str(&mut s, "no playback ports found on '");
                push_str(&mut s, n.as_str());
            },
        }
        push_str(&mut s, "'");
        assert(s@ =~= link_message_spec(*self));
        s
    }
}

/// The first playback port whose channel is `ch`.
fn find_on_channel(pbs: &Vec<PortInfo>, ch: &String) -> (r: Option<usize>)
    ensures
        match r {
            Some(i) => i < pbs@.len() && first_on_channel(ports_view(pbs@), ch@) == Some(
                pbs@[i as int]@,
            ),
            None => first_on_channel(ports_view(pbs@), ch@) is None,
        },
{
    let mut i: usize = 0;
    assert(ports_view(pbs@).skip(0) =~= ports_view(pbs@));
    while i < pbs.len()
        invariant
            i <= pbs@.len(),
            first_on_channel(ports_view(pbs@), ch@) == first_on_channel(
                ports_view(pbs@).skip(i as int),
                ch@,
            ),
        decreases pbs@.len() - i,
    {
        let c = channel_suffix(pbs[i].name.as_str());
        let ghost rest = ports_view(pbs@).skip(i as int);
        assert(rest[0] == pbs@[i as int]@);
        if c == *ch {
            return Some(i);
        }
        assert(rest.drop_first() =~= ports_view(pbs@).skip(i + 1));
        i = i + 1;
    }
    None
}

/// Plans each monitor port, in order: linked to the first playback port of
/// the same channel (`FL` to `FL`, `FR` to `FR`), or left unlinked.
pub fn plan_links(monitors: &Vec<PortInfo>, playbacks: &Vec<PortInfo>) -> (r: Vec<PlannedLink>)
    ensures
        plan_view(r@) == planned_links(ports_view(monitors@), ports_view(playbacks@)),
{
    let mut r: Vec<PlannedLink> = Vec::new();
    let mut i: usize = 0;
    while i < monitors.len()
        invariant
            i <= monitors@.len(),
            plan_view(r@) == planned_links(ports_view(monitors@).subrange(0, i as int), ports_view(playbacks@)),
        decreases monitors@.len() - i,
    {
        let ch = channel_suffix(monitors[i].name.as_str());
        let input_port = match find_on_channel(playbacks, &ch) {
            Some(j) => Some(playbacks[j].id),
            None => None,
        };
        let ghost before = plan_view(r@);
        r.push(PlannedLink { output_port: monitors[i].id, channel: ch, input_port });
        proof {
            assert(plan_view(r@) =~= before.push(plan_for(monitors@[i as int]@, ports_view(playbacks@))));
            assert(ports_view(monitors@).subrange(0, i + 1) =~= ports_view(monitors@).subrange(0, i as int).push(
                monitors@[i as int]@,
            ));
            assert(planned_links(ports_view(monitors@).subrange(0, i + 1), ports_view(playbacks@))
                =~= planned_links(ports_view(monitors@).subrange(0, i as int), ports_view(playbacks@)).push(
                plan_for(monitors@[i as int]@, ports_view(playbacks@)),
            ));
        }
        i = i + 1;
    }
    assert(ports_view(monitors@).subrange(0, i as int) =~= ports_view(monitors@));
    r
}

/// A map of ports keyed by their own ids gives a well-formed view.
proof fn lemma_ports_view(m: Map<u32, PortInfo>)
    requires
        m.dom().finite(),
        forall|k: u32| #[trigger] m.contains_key(k) ==> m[k].id == k,
    ensures
        ({
            let v = m.map_values(|p: PortInfo| p@);
            &&& v.dom().finite()
            &&& forall|k: u32| #[trigger] v.contains_key(k) ==> v[k].id == k
        }),
{
    assert(m.map_values(|p: PortInfo| p@).dom() =~= m.dom());
}

impl PortTracker {
    /// Every port sits under its own id.
    #[verifier::type_invariant]
    spec fn keyed_by_id(self) -> bool {
        &&& self@.well_formed()
        &&& unique_names(pairs_view(self.node_ids@))
    }

    /// A tracker that has seen no port and no node.
    pub fn new() -> (r: PortTracker)
        ensures
            r@ == PortsView::initial(),
            r@.well_formed(),
    {
        let ports: HashMap<u32, PortInfo> = HashMap::new();
        proof {
            lemma_ports_view(ports@);
        }
        let r = PortTracker { ports, node_ids: Vec::new() };
        assert(r@.ports =~= Map::<u32, PortView>::empty());
        assert(pairs_view(r.node_ids@) =~= Seq::<(Seq<char>, u32)>::empty());
        r
    }

    /// Called when the registry announces a global.
    pub fn on_global(&mut self, global: &GlobalInfo)
        ensures
            final(self)@ == old(self)@.on_global(global@),
            final(self)@.well_formed(),
    {
        proof {
            use_type_invariant(&*self);
        }
        let ghost before = self@;
        let props = match &global.props {
            Some(p) => p,
            None => return,
        };
        if global.kind == ObjectKind::Port {
            let node_id: u32 = match prop_get(props, "node.id") {
                Some(id) => match parse_u32(id.as_str()) {
                    Some(v) => v,
                    None => 0,
                },
                None => return,
            };
            let port_name = match prop_get(props, "port.name") {
                Some(n) => n.clone(),
                None => return,
            };
            let direction = match prop_get(props, "port.direction") {
                Some(d) => if same_text(d, "in") {
                    PortDirection::In
                } else if same_text(d, "out") {
                    PortDirection::Out
                } else {
                    return;
                },
                None => return,
            };
            let port = PortInfo { id: global.id, node_id, name: port_name, direction };
            let mut ports: HashMap<u32, PortInfo> = HashMap::new();
            proof {
                lemma_ports_view(ports@);
            }
            std::mem::swap(&mut ports, &mut self.ports);
            let ghost old_ports = ports@;
            ports.insert(global.id, port);
            proof {
                assert forall|k: u32| #[trigger] ports@.contains_key(k) implies ports@[k].id == k by {
                    if k != global.id {
                        assert(old_ports.contains_key(k));
                        assert(before.ports.contains_key(k));
                    }
                }
                lemma_ports_view(ports@);
            }
            self.ports = ports;
            proof {
                let after = before.on_global(global@);
                assert(self@.ports =~= after.ports);
            }
        } else if global.kind == ObjectKind::Node {
            if let Some(name) = prop_get(props, "node.name") {
                let mut ids: Vec<(String, u32)> = Vec::new();
                std::mem::swap(&mut ids, &mut self.node_ids);
                let ghost s0 = pairs_view(ids@);
                assert(unique_names(s0));
                let mut i: usize = 0;
                while i < ids.len() && ids[i].0 != *name
                    invariant
                        i <= ids@.len(),
                        s0 == pairs_view(ids@),
                        forall|j: int| 0 <= j < i ==> s0[j].0 != name@,
                    decreases ids@.len() - i,
                {
                    i = i + 1;
                }
                if i < ids.len() {
                    ids.remove(i);
                    ids.insert(i, (name.clone(), global.id));
                    proof {
                        assert(s0[i as int].0 == name@);
                        assert(pairs_view(ids@) =~= s0.update(i as int, (name@, global.id)));
                        lemma_assoc_map_update(s0, i as int, global.id);
                        let t = pairs_view(ids@);
                        assert forall|a: int, b: int| 0 <= a < b < t.len() implies #[trigger] t[a].0
                            != #[trigger] t[b].0 by {
                            assert(t[a].0 == s0[a].0 && t[b].0 == s0[b].0);
                        }
                    }
                } else {
                    ids.push((name.clone(), global.id));
                    proof {
                        assert(pairs_view(ids@).drop_last() =~= s0);
                        let t = pairs_view(ids@);
                        assert forall|a: int, b: int| 0 <= a < b < t.len() implies #[trigger] t[a].0
                            != #[trigger] t[b].0 by {
                            assert(t[a] == s0[a]);
                            if b < s0.len() {
                                assert(t[b] == s0[b]);
                            }
                        }
                    }
                }
                self.node_ids = ids;
                proof {
                    assert(self@.ports == before.ports);
                    assert(self@.node_ids == before.node_ids.insert(name@, global.id));
                }
            }
        }
    }

    /// The global id recorded for the node named `name`.
    fn node_id_of(&self, name: &str) -> (r: Option<u32>)
        ensures
            match r {
                Some(id) => self@.node_ids.contains_key(name@) && self@.node_ids[name@] == id,
                None => !self@.node_ids.contains_key(name@),
            },
    {
        let key = name.to_owned();
        let ghost s = pairs_view(self.node_ids@);
        let mut i: usize = self.node_ids.len();
        assert(s.subrange(0, i as int) =~= s);
        while i > 0
            invariant
                i <= s.len(),
                s == pairs_view(self.node_ids@),
                key@ == name@,
                assoc_map(s).contains_key(name@) == assoc_map(s.subrange(0, i as int)).contains_key(
                    name@,
                ),
                assoc_map(s).contains_key(name@) ==> assoc_map(s)[name@] == assoc_map(
                    s.subrange(0, i as int),
                )[name@],
            decreases i,
        {
            let ghost pre = s.subrange(0, i as int);
            assert(pre.last() == (self.node_ids@[i - 1].0@, self.node_ids@[i - 1].1));
            if self.node_ids[i - 1].0 == key {
                return Some(self.node_ids[i - 1].1);
            }
            proof {
                lemma_assoc_map_skip_last(pre, name@);
                assert(pre.drop_last() =~= s.subrange(0, i - 1));
            }
            i = i - 1;
        }
        assert(assoc_map(s.subrange(0, 0)) =~= Map::<Seq<char>, u32>::empty());
        None
    }

    /// The ports of node `node` with direction `dir`, in no particular order.
    fn ports_on(&self, node: u32, dir: PortDirection) -> (r: Vec<PortInfo>)
        ensures
            lists(ports_view(r@), self@.ports_on(node, dir)),
    {
        proof {
            use_type_invariant(self);
        }
        let keys = keys_of(&self.ports);
        let ghost m = self@.ports;
        let ghost keep = |p: PortView| p.node_id == node && p.direction == dir;
        let mut r: Vec<PortInfo> = Vec::new();
        let mut i: usize = 0;
        while i < keys.len()
            invariant
                self@.well_formed(),
                m == self@.ports,
                keep == (|p: PortView| p.node_id == node && p.direction == dir),
                keys@.to_set() == self.ports@.dom(),
                i <= keys@.len(),
                ports_view(r@) == picked(m, keys@.take(i as int), keep),
            decreases keys@.len() - i,
        {
            let k = keys[i];
            proof {
                lemma_picked_step(m, keys@, i as int, keep);
                assert(keys@.to_set().contains(k));
            }
            let p = self.ports.get(&k).unwrap();
            assert(self.ports@[k] == *p);
            assert(m[k] == p@);
            let ghost before = ports_view(r@);
            if p.node_id == node && p.direction == dir {
                r.push(p.duplicate());
                assert(ports_view(r@) =~= before.push(p@));
            }
            i = i + 1;
        }
        proof {
            assert(keys@.take(keys@.len() as int) =~= keys@);
            assert(m.dom() =~= self.ports@.dom());
            lemma_picked_all(m, |p: PortView| p.id, keys@, keep);
            assert(kept_entries(m, |p: PortView| p.id, keep) =~= self@.ports_on(node, dir));
        }
        r
    }

    fn ports_of(&self, node_name: &str, dir: PortDirection) -> (r: Vec<PortInfo>)
        ensures
            lists(ports_view(r@), self@.ports_of(node_name@, dir)),
    {
        match self.node_id_of(node_name) {
            Some(id) => self.ports_on(id, dir),
            None => {
                let r: Vec<PortInfo> = Vec::new();
                assert(ports_view(r@).to_set() =~= Set::<PortView>::empty());
                r
            },
        }
    }

    /// The monitor (output) ports of the node named `node_name`, in no
    /// particular order; none when no node of that name is known.
    pub fn monitor_ports(&self, node_name: &str) -> (r: Vec<PortInfo>)
        ensures
            lists(ports_view(r@), self@.ports_of(node_name@, PortDirection::Out)),
    {
        self.ports_of(node_name, PortDirection::Out)
    }

    /// The playback (input) ports of the node named `node_name`, in no
    /// particular order; none when no node of that name is known.
    pub fn playback_ports(&self, node_name: &str) -> (r: Vec<PortInfo>)
        ensures
            lists(ports_view(r@), self@.ports_of(node_name@, PortDirection::In)),
    {
        self.ports_of(node_name, PortDirection::In)
    }

    /// The plan that connects the monitor ports of the virtual sink
    /// `null_sink_name` to the playback ports of `target_name`, channel by
    /// channel: one entry per monitor port. It fails when the sink has no
    /// monitor port, or else when the target has no playback port.
    pub fn link_plan(&self, null_sink_name: &str, target_name: &str) -> (r: Result<
        Vec<PlannedLink>,
        LinkError,
    >)
        ensures
            ({
                let mons = self@.ports_of(null_sink_name@, PortDirection::Out);
                let pbs = self@.ports_of(target_name@, PortDirection::In);
                match r {
                    Ok(links) => mons.len() > 0 && pbs.len() > 0 && exists|ms: Seq<PortView>, ps: Seq<PortView>|
                        lists(ms, mons) && lists(ps, pbs) && plan_view(links@) == planned_links(ms, ps),
                    Err(LinkError::NoMonitorPorts(n)) => mons.len() == 0 && n@ == null_sink_name@,
                    Err(LinkError::NoPlaybackPorts(n)) => mons.len() > 0 && pbs.len() == 0 && n@
                        == target_name@,
                }
            }),
    {
        let monitors = self.monitor_ports(null_sink_name);
        let playbacks = self.playback_ports(target_name);
        proof {
            ports_view(monitors@).unique_seq_to_set();
            ports_view(playbacks@).unique_seq_to_set();
        }
        if monitors.len() == 0 {
            assert(ports_view(monitors@) =~= Seq::<PortView>::empty());
            return Err(LinkError::NoMonitorPorts(null_sink_name.to_owned()));
        }
        if playbacks.len() == 0 {
            assert(ports_view(playbacks@) =~= Seq::<PortView>::empty());
            return Err(LinkError::NoPlaybackPorts(target_name.to_owned()));
        }
        let links = plan_links(&monitors, &playbacks);
        Ok(links)
    }
}

/// The properties of the virtual sink: a null audio sink named and described
/// `name`, with role `media_role`, stereo, whose monitor follows the channel
/// volumes.
pub open spec fn null_sink_props_spec(name: Seq<char>, media_role: Seq<char>) -> PropsView {
    seq![
        ("factory.name"@, "support.null-audio-sink"@),
        ("node.name"@, name),
        ("node.description"@, name),
        ("media.class"@, "Audio/Sink"@),
        ("media.role"@, media_role),
        ("monitor.channel-volumes"@, "true"@),
        ("audio.position"@, "FL,FR"@),
    ]
}

/// The properties with which the virtual sink is created.
pub fn null_sink_properties(name: &str, media_role: &str) -> (r: Vec<(String, String)>)
    ensures
        props_view(r@) == null_sink_props_spec(name@, media_role@),
{
    let mut r: Vec<(String, String)> = Vec::new();
    r.push(("factory.name".to_owned(), "support.null-audio-sink".to_owned()));
    r.push(("node.name".to_owned(), name.to_owned()));
    r.push(("node.description".to_owned(), name.to_owned()));
    r.push(("media.class".to_owned(), "Audio/Sink".to_owned()));
    r.push(("media.role".to_owned(), media_role.to_owned()));
    r.push(("monitor.channel-volumes".to_owned(), "true".to_owned()));
    r.push(("audio.position".to_owned(), "FL,FR".to_owned()));
    assert(props_view(r@) =~= null_sink_props_spec(name@, media_role@));
    r
}

/// The virtual sink is created under the name asked for: its `node.name`
/// and `node.description` are `name`, its role is `media_role` and it is an
/// audio sink. So when the registry announces it, its node id is recorded
/// under `name`, and the ports looked up for `name` are those of that node.
pub proof fn law_null_sink_is_named_as_asked(
    id: u32,
    name: Seq<char>,
    media_role: Seq<char>,
    ports: PortsView,
    dir: PortDirection,
)
    ensures
        lookup(null_sink_props_spec(name, media_role), "node.name"@) == Some(name),
        lookup(null_sink_props_spec(name, media_role), "node.description"@) == Some(name),
        lookup(null_sink_props_spec(name, media_role), "media.role"@) == Some(media_role),
        lookup(null_sink_props_spec(name, media_role), "media.class"@) == Some("Audio/Sink"@),
        ports.on_global(
            GlobalView { id, kind: ObjectKind::Node, props: Some(null_sink_props_spec(name, media_role)) },
        ).node_ids == ports.node_ids.insert(name, id),
        ports.on_global(
            GlobalView { id, kind: ObjectKind::Node, props: Some(null_sink_props_spec(name, media_role)) },
        ).ports_of(name, dir) == ports.ports_on(id, dir),
{
    let p = null_sink_props_spec(name, media_role);
    reveal_strlit("factory.name");
    reveal_strlit("node.name");
    reveal_strlit("node.description");
    reveal_strlit("media.class");
    reveal_strlit("media.role");
    assert forall|j: int| 0 <= j < 1 implies (#[trigger] p[j]).0 != "node.name"@ by {
        assert(p[j].0.len() != "node.name"@.len());
    }
    lemma_lookup_finds(p, 1, "node.name"@);
    assert forall|j: int| 0 <= j < 2 implies (#[trigger] p[j]).0 != "node.description"@ by {
        assert(p[j].0.len() != "node.description"@.len());
    }
    lemma_lookup_finds(p, 2, "node.description"@);
    assert forall|j: int| 0 <= j < 3 implies (#[trigger] p[j]).0 != "media.class"@ by {
        assert(p[j].0.len() != "media.class"@.len());
    }
    lemma_lookup_finds(p, 3, "media.class"@);
    assert forall|j: int| 0 <= j < 4 implies (#[trigger] p[j]).0 != "media.role"@ by {
        assert(p[j].0.len() != "media.role"@.len());
    }
    lemma_lookup_finds(p, 4, "media.role"@);
}

/// A link is asked from `output_port` into `input_port`, in that direction,
/// and stays after the merger's connection closes: the two port properties
/// read back as the two ports, each in its own role.
pub proof fn law_link_goes_from_output_to_input(output_port: u32, input_port: u32)
    ensures
        lookup(link_props_spec(output_port, input_port), "link.output.port"@) == Some(decimal(output_port as nat)),
        lookup(link_props_spec(output_port, input_port), "link.input.port"@) == Some(decimal(input_port as nat)),
        lookup(link_props_spec(output_port, input_port), "object.linger"@) == Some("true"@),
        parse_u32_spec(lookup(link_props_spec(output_port, input_port), "link.output.port"@)->0) == Some(
            output_port,
        ),
        parse_u32_spec(lookup(link_props_spec(output_port, input_port), "link.input.port"@)->0) == Some(
            input_port,
        ),
{
    let p = link_props_spec(output_port, input_port);
    reveal_strlit("link.output.port");
    reveal_strlit("link.input.port");
    reveal_strlit("object.linger");
    lemma_lookup_finds(p, 0, "link.output.port"@);
    assert forall|j: int| 0 <= j < 1 implies (#[trigger] p[j]).0 != "link.input.port"@ by {
        assert(p[j].0.len() != "link.input.port"@.len());
    }
    lemma_lookup_finds(p, 1, "link.input.port"@);
    assert forall|j: int| 0 <= j < 2 implies (#[trigger] p[j]).0 != "object.linger"@ by {
        assert(p[j].0.len() != "object.linger"@.len());
    }
    lemma_lookup_finds(p, 2, "object.linger"@);
    crate::cli::law_decimal_reads_back(output_port);
    crate::cli::law_decimal_reads_back(input_port);
}

/// The properties of a link from port `output_port` to port `input_port`
/// that stays after the merger's connection closes.
pub open spec fn link_props_spec(output_port: u32, input_port: u32) -> PropsView {
    seq![
        ("link.output.port"@, decimal(output_port as nat)),
        ("link.input.port"@, decimal(input_port as nat)),
        ("object.linger"@, "true"@),
    ]
}

/// The properties with which a link is created.
pub fn link_properties(output_port: u32, input_port: u32) -> (r: Vec<(String, String)>)
    ensures
        props_view(r@) == link_props_spec(output_port, input_port),
{
    let mut r: Vec<(String, String)> = Vec::new();
    r.push(("link.output.port".to_owned(), decimal_string(output_port as u64)));
    r.push(("link.input.port".to_owned(), decimal_string(input_port as u64)));
    r.push(("object.linger".to_owned(), "true".to_owned()));
    assert(props_view(r@) =~= link_props_spec(output_port, input_port));
    r
}

} // verus!
