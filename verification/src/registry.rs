//! Tracking of the target nodes: which of the sinks to merge are present in
//! the PipeWire registry, which are linked, and which disappeared and wait to
//! come back.
use std::collections::{HashMap, HashSet};
use vstd::prelude::*;

use crate::global::{lookup, prop_get, GlobalInfo, GlobalView, ObjectKind};
use crate::keyed::{kept_entries, keys_of, lemma_picked_all, lemma_picked_step, picked};

verus! {

broadcast use vstd::std_specs::hash::group_hash_axioms;

/// Everything known about one PipeWire node that is a merge target.
#[derive(Clone, Debug)]
pub struct NodeInfo {
    /// PipeWire global id.
    pub id: u32,
    /// `node.name`.
    pub name: String,
    /// True once the links into this node have been established.
    pub linked: bool,
}

/// The model of a `NodeInfo`.
pub struct NodeView {
    pub id: u32,
    pub name: Seq<char>,
    pub linked: bool,
}

impl View for NodeInfo {
    type V = NodeView;

    open spec fn view(&self) -> NodeView {
        NodeView { id: self.id, name: self.name@, linked: self.linked }
    }
}

impl NodeInfo {
    /// A copy of this record.
    pub fn duplicate(&self) -> (r: NodeInfo)
        ensures
            r@ == self@,
    {
        NodeInfo { id: self.id, name: self.name.clone(), linked: self.linked }
    }
}

/// The names of a list of strings.
pub open spec fn names_view(s: Seq<String>) -> Seq<Seq<char>> {
    s.map_values(|n: String| n@)
}

/// The models of a list of nodes.
pub open spec fn nodes_view(s: Seq<NodeInfo>) -> Seq<NodeView> {
    s.map_values(|n: NodeInfo| n@)
}

/// `s` with every occurrence of `x` taken out, the others in their order.
pub open spec fn without(s: Seq<Seq<char>>, x: Seq<char>) -> Seq<Seq<char>>
    decreases s.len(),
{
    if s.len() == 0 {
        s
    } else if s.last() == x {
        without(s.drop_last(), x)
    } else {
        without(s.drop_last(), x).push(s.last())
    }
}

/// The state of a node tracker.
pub struct TrackerView {
    /// The target nodes present in the registry, by global id.
    pub nodes: Map<u32, NodeView>,
    /// The `node.name`s to merge.
    pub targets: Seq<Seq<char>>,
    /// Names of target nodes that disappeared and have not come back.
    pub pending: Seq<Seq<char>>,
    /// Ids of tracked nodes that came back after a node of their name
    /// disappeared.
    pub returned: Set<u32>,
}

impl TrackerView {
    /// Every tracked node sits under its own id and is a target, and only
    /// targets wait to reconnect.
    pub open spec fn well_formed(self) -> bool {
        &&& self.nodes.dom().finite()
        &&& forall|k: u32| #[trigger]
            self.nodes.contains_key(k) ==> self.nodes[k].id == k && self.targets.contains(
                self.nodes[k].name,
            )
        &&& forall|i: int| 0 <= i < self.pending.len() ==> self.targets.contains(#[trigger] self.pending[i])
    }

    /// A tracker for `targets` that has seen nothing yet.
    pub open spec fn initial(targets: Seq<Seq<char>>) -> TrackerView {
        TrackerView { nodes: Map::empty(), targets, pending: Seq::empty(), returned: Set::empty() }
    }

    /// The registry announced `g`: a node whose `node.name` is a target is
    /// tracked under its id, not linked, and no longer waits to reconnect;
    /// it counts as returned exactly when its name was waiting. Anything
    /// else changes nothing.
    pub open spec fn on_global(self, g: GlobalView) -> TrackerView {
        if g.kind != ObjectKind::Node {
            self
        } else {
            match g.props {
                None => self,
                Some(p) => match lookup(p, "node.name"@) {
                    None => self,
                    Some(name) => if !self.targets.contains(name) {
                        self
                    } else {
                        TrackerView {
                            nodes: self.nodes.insert(g.id, NodeView { id: g.id, name, linked: false }),
                            targets: self.targets,
                            pending: without(self.pending, name),
                            returned: if self.pending.contains(name) {
                                self.returned.insert(g.id)
                            } else {
                                self.returned.remove(g.id)
                            },
                        }
                    },
                },
            }
        }
    }

    /// The registry removed global `id`: a tracked node is dropped and its
    /// name waits to reconnect. Anything else changes nothing.
    pub open spec fn on_global_remove(self, id: u32) -> TrackerView {
        if self.nodes.contains_key(id) {
            TrackerView {
                nodes: self.nodes.remove(id),
                targets: self.targets,
                pending: self.pending.push(self.nodes[id].name),
                returned: self.returned.remove(id),
            }
        } else {
            self
        }
    }

    /// The linked flag of node `id` set to `linked`, if it is tracked.
    pub open spec fn set_linked(self, id: u32, linked: bool) -> TrackerView {
        if self.nodes.contains_key(id) {
            TrackerView {
                nodes: self.nodes.insert(id, NodeView { linked, ..self.nodes[id] }),
                ..self
            }
        } else {
            self
        }
    }

    /// The tracked nodes that are not linked.
    pub open spec fn unlinked(self) -> Set<NodeView> {
        Set::new(|v: NodeView| self.nodes.contains_key(v.id) && self.nodes[v.id] == v && !v.linked)
    }

    /// The tracked nodes that are linked.
    pub open spec fn linked(self) -> Set<NodeView> {
        Set::new(|v: NodeView| self.nodes.contains_key(v.id) && self.nodes[v.id] == v && v.linked)
    }

    /// The tracked nodes whose links have to be made again: they came back
    /// after disappearing and are not linked yet.
    pub open spec fn needing_reconnect(self) -> Set<NodeView> {
        Set::new(
            |v: NodeView|
                self.nodes.contains_key(v.id) && self.nodes[v.id] == v && !v.linked
                    && self.returned.contains(v.id),
        )
    }

    /// `v` is kept by a query for unlinked nodes, which with
    /// `only_returned` asks only for nodes that came back.
    pub open spec fn keeps(self, v: NodeView, only_returned: bool) -> bool {
        !v.linked && (!only_returned || self.returned.contains(v.id))
    }

    /// What a query for unlinked nodes gives: all of them, or with
    /// `only_returned` those that need their links made again.
    pub open spec fn wanted(self, only_returned: bool) -> Set<NodeView> {
        if only_returned {
            self.needing_reconnect()
        } else {
            self.unlinked()
        }
    }

    /// The tracker after the linking pass made `made` links into node `id`:
    /// the node counts as linked only when at least one link was made.
    pub open spec fn links_made(self, id: u32, made: nat) -> TrackerView {
        if made > 0 {
            self.set_linked(id, true)
        } else {
            self
        }
    }

    /// The tracker after `e`.
    pub open spec fn apply(self, e: TrackerEvent) -> TrackerView {
        match e {
            TrackerEvent::Announced(g) => self.on_global(g),
            TrackerEvent::Removed(id) => self.on_global_remove(id),
            TrackerEvent::Marked(id, linked) => self.set_linked(id, linked),
        }
    }

    /// The tracker after the events `es`, in order.
    pub open spec fn apply_all(self, es: Seq<TrackerEvent>) -> TrackerView
        decreases es.len(),
    {
        if es.len() == 0 {
            self
        } else {
            self.apply_all(es.drop_last()).apply(es.last())
        }
    }
    /// The tracker after a linking pass that, in order, made
    /// `results[i].1` links into node `results[i].0`.
    pub open spec fn record_all(self, results: Seq<(u32, nat)>) -> TrackerView
        decreases results.len(),
    {
        if results.len() == 0 {
            self
        } else {
            self.record_all(results.drop_last()).links_made(results.last().0, results.last().1)
        }
    }
}

/// Something that changes a tracker: a global announced or removed by the
/// registry, or a node marked linked or unlinked.
pub enum TrackerEvent {
    Announced(GlobalView),
    Removed(u32),
    Marked(u32, bool),
}

/// When a target node disappears from the registry and a node of the same
/// name appears again, the new node is tracked under its id, not linked (so
/// the next linking pass links it), and the name no longer waits to
/// reconnect.
pub proof fn law_reappearing_target_is_linked_again(t: TrackerView, id: u32, g: GlobalView)
    requires
        t.well_formed(),
        t.nodes.contains_key(id),
        g.kind == ObjectKind::Node,
        g.props is Some,
        lookup(g.props->0, "node.name"@) == Some(t.nodes[id].name),
    ensures
        ({
            let name = t.nodes[id].name;
            let gone = t.on_global_remove(id);
            let back = gone.on_global(g);
            &&& !gone.nodes.contains_key(id)
            &&& gone.pending.contains(name)
            &&& back.nodes.contains_key(g.id)
            &&& back.nodes[g.id] == (NodeView { id: g.id, name, linked: false })
            &&& back.unlinked().contains(back.nodes[g.id])
            &&& back.needing_reconnect().contains(back.nodes[g.id])
            &&& !back.pending.contains(name)
        }),
{
    let name = t.nodes[id].name;
    let gone = t.on_global_remove(id);
    assert(gone.pending[gone.pending.len() - 1] == name);
    assert(gone.targets.contains(name));
    lemma_without_contents(gone.pending, name);
}

/// A target node seen for the first time, while no node of its name waits
/// to reconnect, does not need its links made again: it is linked as a new
/// node, not as one that came back.
pub proof fn law_first_appearance_needs_no_reconnect(t: TrackerView, g: GlobalView)
    requires
        t.well_formed(),
        g.kind == ObjectKind::Node,
        g.props is Some,
        lookup(g.props->0, "node.name"@) matches Some(n) && t.targets.contains(n) && !t.pending.contains(n),
    ensures
        t.on_global(g).nodes.contains_key(g.id),
        !t.on_global(g).needing_reconnect().contains(t.on_global(g).nodes[g.id]),
        t.on_global(g).unlinked().contains(t.on_global(g).nodes[g.id]),
{
}

/// Each change keeps a well-formed tracker well formed and leaves its
/// targets as they were.
pub proof fn lemma_apply_keeps_invariant(t: TrackerView, e: TrackerEvent)
    requires
        t.well_formed(),
    ensures
        t.apply(e).well_formed(),
        t.apply(e).targets == t.targets,
{
    match e {
        TrackerEvent::Announced(g) => {
            let after = t.on_global(g);
            if after != t {
                let name = lookup(g.props->0, "node.name"@)->0;
                lemma_without_contents(t.pending, name);
                assert forall|k: u32| #[trigger] after.nodes.contains_key(k) implies after.nodes[k].id == k
                    && after.targets.contains(after.nodes[k].name) by {
                    if k != g.id {
                        assert(t.nodes.contains_key(k));
                    }
                }
                assert forall|i: int| 0 <= i < after.pending.len() implies after.targets.contains(
                    #[trigger] after.pending[i],
                ) by {
                    assert(after.pending.contains(after.pending[i]));
                    let j = choose|j: int| 0 <= j < t.pending.len() && t.pending[j] == after.pending[i];
                    assert(t.targets.contains(t.pending[j]));
                }
            }
        },
        TrackerEvent::Removed(id) => {
            let after = t.on_global_remove(id);
            if t.nodes.contains_key(id) {
                assert forall|k: u32| #[trigger] after.nodes.contains_key(k) implies after.nodes[k].id == k
                    && after.targets.contains(after.nodes[k].name) by {
                    assert(t.nodes.contains_key(k));
                }
                assert forall|i: int| 0 <= i < after.pending.len() implies after.targets.contains(
                    #[trigger] after.pending[i],
                ) by {
                    if i < t.pending.len() {
                        assert(after.pending[i] == t.pending[i]);
                    }
                }
            }
        },
        TrackerEvent::Marked(id, linked) => {
            let after = t.set_linked(id, linked);
            assert forall|k: u32| #[trigger] after.nodes.contains_key(k) implies after.nodes[k].id == k
                && after.targets.contains(after.nodes[k].name) by {
                assert(t.nodes.contains_key(k));
            }
        },
    }
}

/// The tracked nodes are as many as the unlinked ones and the linked ones
/// together.
pub proof fn law_seen_is_unlinked_plus_linked(t: TrackerView)
    requires
        t.well_formed(),
    ensures
        t.nodes.len() == t.unlinked().len() + t.linked().len(),
{
    let dom = t.nodes.dom();
    let u = dom.filter(|k: u32| !t.nodes[k].linked);
    let l = dom.filter(|k: u32| t.nodes[k].linked);
    let f = |k: u32| t.nodes[k];
    assert(u + l =~= dom);
    vstd::set_lib::lemma_len_subset(u, dom);
    vstd::set_lib::lemma_len_subset(l, dom);
    vstd::set_lib::lemma_set_disjoint_lens(u, l);
    assert(u.disjoint(l));
    assert(vstd::relations::injective_on(f, u)) by {
        assert forall|a: u32, b: u32| u.contains(a) && u.contains(b) && #[trigger] f(a) == #[trigger] f(b) implies a == b by {
            assert(t.nodes[a].id == a && t.nodes[b].id == b);
        }
    }
    assert(vstd::relations::injective_on(f, l)) by {
        assert forall|a: u32, b: u32| l.contains(a) && l.contains(b) && #[trigger] f(a) == #[trigger] f(b) implies a == b by {
            assert(t.nodes[a].id == a && t.nodes[b].id == b);
        }
    }
    assert(u.map(f) =~= t.unlinked()) by {
        assert forall|v: NodeView| t.unlinked().contains(v) implies u.map(f).contains(v) by {
            assert(u.contains(v.id) && f(v.id) == v);
        }
    }
    assert(l.map(f) =~= t.linked()) by {
        assert forall|v: NodeView| t.linked().contains(v) implies l.map(f).contains(v) by {
            assert(l.contains(v.id) && f(v.id) == v);
        }
    }
    vstd::set_lib::lemma_map_size(u, t.unlinked(), f);
    vstd::set_lib::lemma_map_size(l, t.linked(), f);
}

/// Whatever the registry announces or removes and whatever is marked, a
/// tracker keeps its targets (so `target_count` never changes), stays well
/// formed, and counts as many tracked nodes as unlinked plus linked ones.
pub proof fn law_events_keep_targets_and_counts(targets: Seq<Seq<char>>, es: Seq<TrackerEvent>)
    ensures
        TrackerView::initial(targets).apply_all(es).targets == targets,
        TrackerView::initial(targets).apply_all(es).well_formed(),
        TrackerView::initial(targets).apply_all(es).nodes.len() == TrackerView::initial(targets).apply_all(
            es,
        ).unlinked().len() + TrackerView::initial(targets).apply_all(es).linked().len(),
    decreases es.len(),
{
    let t = TrackerView::initial(targets);
    if es.len() == 0 {
        assert(t.nodes.dom() =~= Set::<u32>::empty());
    } else {
        law_events_keep_targets_and_counts(targets, es.drop_last());
        lemma_apply_keeps_invariant(t.apply_all(es.drop_last()), es.last());
    }
    law_seen_is_unlinked_plus_linked(t.apply_all(es));
}

/// Marking a node linked and then unlinked gives back the tracker it was,
/// when that node was not linked before.
pub proof fn law_mark_unlinked_undoes_mark_linked(t: TrackerView, id: u32)
    requires
        t.nodes.contains_key(id) ==> !t.nodes[id].linked,
    ensures
        t.set_linked(id, true).set_linked(id, false) == t,
{
    if t.nodes.contains_key(id) {
        assert(t.set_linked(id, true).set_linked(id, false).nodes =~= t.nodes);
    }
}

/// Marking node `id` linked takes exactly that node out of the unlinked
/// nodes and leaves the others as they were.
pub proof fn law_mark_linked_takes_node_out_of_unlinked(t: TrackerView, id: u32)
    requires
        t.well_formed(),
    ensures
        t.set_linked(id, true).unlinked() == (if t.nodes.contains_key(id) {
            t.unlinked().remove(t.nodes[id])
        } else {
            t.unlinked()
        }),
{
    assert(t.set_linked(id, true).unlinked() =~= (if t.nodes.contains_key(id) {
        t.unlinked().remove(t.nodes[id])
    } else {
        t.unlinked()
    }));
}

/// Removing the same global twice is the same as removing it once: a node
/// waits to reconnect once per disappearance.
pub proof fn law_remove_twice_is_remove_once(t: TrackerView, id: u32)
    ensures
        t.on_global_remove(id).on_global_remove(id) == t.on_global_remove(id),
{
}

/// A global that is not a node, or whose `node.name` is not a target, leaves
/// the tracker as it was.
pub proof fn law_only_targets_are_tracked(t: TrackerView, g: GlobalView)
    requires
        !(g.kind == ObjectKind::Node && g.props is Some && (lookup(g.props->0, "node.name"@) matches Some(n)
            && t.targets.contains(n))),
    ensures
        t.on_global(g) == t,
{
}

/// Announcing a target node that is already tracked and linked resets it to
/// not linked: a node that came back under the same id is linked again.
pub proof fn law_announced_node_starts_unlinked(t: TrackerView, g: GlobalView)
    requires
        t.well_formed(),
        g.kind == ObjectKind::Node,
        g.props is Some,
        lookup(g.props->0, "node.name"@) matches Some(n) && t.targets.contains(n),
    ensures
        t.on_global(g).nodes.contains_key(g.id),
        !t.on_global(g).nodes[g.id].linked,
        t.on_global(g).unlinked().contains(t.on_global(g).nodes[g.id]),
{
}

/// Some entry of `results` made at least one link into node `id`.
pub open spec fn made_links_into(results: Seq<(u32, nat)>, id: u32) -> bool {
    exists|i: int| 0 <= i < results.len() && #[trigger] results[i].0 == id && results[i].1 > 0
}

/// A linking pass changes only the linked flags: the same nodes stay
/// tracked, and a node is linked after it exactly when it was linked before
/// or the pass made a link into it.
proof fn lemma_record_all(t: TrackerView, results: Seq<(u32, nat)>)
    requires
        t.well_formed(),
    ensures
        t.record_all(results).nodes.dom() == t.nodes.dom(),
        forall|k: u32| #[trigger]
            t.record_all(results).nodes.contains_key(k) ==> {
                &&& t.record_all(results).nodes[k].id == t.nodes[k].id
                &&& t.record_all(results).nodes[k].name == t.nodes[k].name
                &&& t.record_all(results).nodes[k].linked == (t.nodes[k].linked || made_links_into(results, k))
            },
    decreases results.len(),
{
    if results.len() > 0 {
        let front = results.drop_last();
        let (id, made) = results.last();
        lemma_record_all(t, front);
        let before = t.record_all(front);
        assert(t.record_all(results) == before.links_made(id, made));
        assert forall|k: u32| made_links_into(results, k) == (made_links_into(front, k) || (id == k && made > 0)) by {
            if made_links_into(front, k) {
                let i = choose|i: int| 0 <= i < front.len() && #[trigger] front[i].0 == k && front[i].1 > 0;
                assert(results[i] == front[i]);
            }
            if id == k && made > 0 {
                assert(results[results.len() - 1].0 == k);
            }
            if made_links_into(results, k) && !(id == k && made > 0) {
                let i = choose|i: int| 0 <= i < results.len() && #[trigger] results[i].0 == k && results[i].1 > 0;
                assert(i < results.len() - 1);
                assert(front[i] == results[i]);
            }
        }
        assert(t.record_all(results).nodes.dom() =~= t.nodes.dom());
    }
}

/// A linking pass that makes at least one link into every node that was
/// unlinked leaves no node unlinked, and so none that needs its links made
/// again: a second pass right after it, with no registry event between,
/// finds nothing to link and creates nothing.
pub proof fn law_second_pass_has_nothing_to_link(t: TrackerView, results: Seq<(u32, nat)>)
    requires
        t.well_formed(),
        forall|v: NodeView| t.unlinked().contains(v) ==> made_links_into(results, v.id),
    ensures
        t.record_all(results).nodes.dom() == t.nodes.dom(),
        t.record_all(results).unlinked() == Set::<NodeView>::empty(),
        t.record_all(results).needing_reconnect() == Set::<NodeView>::empty(),
{
    lemma_record_all(t, results);
    let after = t.record_all(results);
    assert forall|v: NodeView| !after.unlinked().contains(v) by {
        if after.unlinked().contains(v) {
            let k = v.id;
            assert(t.nodes.contains_key(k));
            assert(t.nodes[k].id == k);
            assert(t.unlinked().contains(t.nodes[k]));
        }
    }
    assert(after.unlinked() =~= Set::<NodeView>::empty());
    assert(after.needing_reconnect() =~= Set::<NodeView>::empty());
}

/// Event `e` announces a node named after one of `targets` under id `id`.
pub open spec fn announces_target(targets: Seq<Seq<char>>, e: TrackerEvent, id: u32) -> bool {
    match e {
        TrackerEvent::Announced(g) => {
            &&& g.id == id
            &&& g.kind == ObjectKind::Node
            &&& g.props is Some
            &&& lookup(g.props->0, "node.name"@) matches Some(n) && targets.contains(n)
        },
        _ => false,
    }
}

/// After the events `es`, id `id` names a live target node: some event
/// announced a target node under it, and no later event removed it.
pub open spec fn alive_after(targets: Seq<Seq<char>>, es: Seq<TrackerEvent>, id: u32) -> bool {
    exists|j: int|
        0 <= j < es.len() && #[trigger] announces_target(targets, es[j], id) && forall|k: int|
            j < k < es.len() ==> es[k] != TrackerEvent::Removed(id)
}

/// One more event: an id is live after it when the event announced a target
/// under it, or when it was live before and the event did not remove it.
proof fn lemma_alive_after_step(targets: Seq<Seq<char>>, es: Seq<TrackerEvent>, id: u32)
    requires
        es.len() > 0,
    ensures
        alive_after(targets, es, id) == (announces_target(targets, es.last(), id) || (alive_after(
            targets,
            es.drop_last(),
            id,
        ) && es.last() != TrackerEvent::Removed(id))),
{
    let pre = es.drop_last();
    let n = es.len() - 1;
    if alive_after(targets, es, id) && !announces_target(targets, es.last(), id) {
        let j = choose|j: int|
            0 <= j < es.len() && #[trigger] announces_target(targets, es[j], id) && forall|k: int|
                j < k < es.len() ==> es[k] != TrackerEvent::Removed(id);
        assert(j < n);
        assert(es[n] != TrackerEvent::Removed(id));
        assert(pre[j] == es[j]);
        assert forall|k: int| j < k < pre.len() implies pre[k] != TrackerEvent::Removed(id) by {
            assert(pre[k] == es[k]);
        }
        assert(announces_target(targets, pre[j], id));
    }
    if announces_target(targets, es.last(), id) {
        assert(announces_target(targets, es[n], id));
    }
    if alive_after(targets, pre, id) && es.last() != TrackerEvent::Removed(id) {
        let j = choose|j: int|
            0 <= j < pre.len() && #[trigger] announces_target(targets, pre[j], id) && forall|k: int|
                j < k < pre.len() ==> pre[k] != TrackerEvent::Removed(id);
        assert(es[j] == pre[j]);
        assert forall|k: int| j < k < es.len() implies es[k] != TrackerEvent::Removed(id) by {
            if k < n {
                assert(pre[k] == es[k]);
            }
        }
        assert(announces_target(targets, es[j], id));
    }
}

/// Whatever the registry announced and removed, and whatever was marked, a
/// tracker for `targets` tracks exactly the ids under which a target node
/// was announced and not removed since; `seen_count` counts them.
pub proof fn law_tracked_ids_follow_the_registry(targets: Seq<Seq<char>>, es: Seq<TrackerEvent>)
    ensures
        TrackerView::initial(targets).apply_all(es).nodes.dom() == Set::new(
            |id: u32| alive_after(targets, es, id),
        ),
        TrackerView::initial(targets).apply_all(es).nodes.len() == Set::new(
            |id: u32| alive_after(targets, es, id),
        ).len(),
    decreases es.len(),
{
    let t = TrackerView::initial(targets);
    let live = Set::new(|id: u32| alive_after(targets, es, id));
    if es.len() == 0 {
        assert(t.apply_all(es).nodes.dom() =~= live);
    } else {
        let pre = es.drop_last();
        let e = es.last();
        law_tracked_ids_follow_the_registry(targets, pre);
        law_events_keep_targets_and_counts(targets, pre);
        let before = t.apply_all(pre);
        let after = t.apply_all(es);
        assert(after == before.apply(e));
        assert forall|id: u32| after.nodes.dom().contains(id) == live.contains(id) by {
            lemma_alive_after_step(targets, es, id);
            assert(before.nodes.dom().contains(id) == alive_after(targets, pre, id));
        }
        assert(after.nodes.dom() =~= live);
    }
}

/// Shared state updated from registry events and read by the merger.
#[derive(Debug)]
pub struct NodeTracker {
    nodes: HashMap<u32, NodeInfo>,
    targets: Vec<String>,
    pending_reconnect: Vec<String>,
    returned: HashSet<u32>,
}

impl View for NodeTracker {
    type V = TrackerView;

    closed spec fn view(&self) -> TrackerView {
        TrackerView {
            nodes: self.nodes@.map_values(|n: NodeInfo| n@),
            targets: names_view(self.targets@),
            pending: names_view(self.pending_reconnect@),
            returned: self.returned@,
        }
    }
}

impl Default for NodeTracker {
    /// A tracker with no targets.
    fn default() -> (r: NodeTracker)
        ensures
            r@ == TrackerView::initial(Seq::empty()),
    {
        let targets: Vec<String> = Vec::new();
        assert(names_view(targets@) =~= Seq::<Seq<char>>::empty());
        NodeTracker::new(targets)
    }
}

/// Whether `names` holds `name`.
fn holds_name(names: &Vec<String>, name: &String) -> (r: bool)
    ensures
        r == names_view(names@).contains(name@),
{
    let mut i: usize = 0;
    while i < names.len()
        invariant
            i <= names@.len(),
            forall|j: int| 0 <= j < i ==> names@[j]@ != name@,
        decreases names@.len() - i,
    {
        if names[i] == *name {
            assert(names_view(names@)[i as int] == name@);
            return true;
        }
        i = i + 1;
    }
    proof {
        if names_view(names@).contains(name@) {
            let j = choose|j: int| 0 <= j < names_view(names@).len() && names_view(names@)[j] == name@;
            assert(names@[j]@ == name@);
        }
    }
    false
}

/// Taking out a name that does not occur changes nothing.
proof fn lemma_without_absent(s: Seq<Seq<char>>, x: Seq<char>)
    requires
        !s.contains(x),
    ensures
        without(s, x) == s,
    decreases s.len(),
{
    if s.len() > 0 {
        assert(!s.drop_last().contains(x)) by {
            if s.drop_last().contains(x) {
                let j = choose|j: int| 0 <= j < s.drop_last().len() && s.drop_last()[j] == x;
                assert(s[j] == x);
            }
        }
        lemma_without_absent(s.drop_last(), x);
        assert(s.drop_last().push(s.last()) =~= s);
    }
}

/// What is left after taking `x` out holds neither `x` nor anything new.
pub proof fn lemma_without_contents(s: Seq<Seq<char>>, x: Seq<char>)
    ensures
        !without(s, x).contains(x),
        forall|y: Seq<char>| #[trigger] without(s, x).contains(y) ==> s.contains(y),
    decreases s.len(),
{
    if s.len() > 0 {
        lemma_without_contents(s.drop_last(), x);
        let w = without(s.drop_last(), x);
        assert forall|y: Seq<char>| #[trigger] without(s, x).contains(y) implies s.contains(y) by {
            if w.contains(y) {
                assert(s.drop_last().contains(y));
                let j = choose|j: int| 0 <= j < s.drop_last().len() && s.drop_last()[j] == y;
                assert(s[j] == y);
            } else {
                assert(s[s.len() - 1] == y);
            }
        }
        if s.last() != x {
            assert(!w.push(s.last()).contains(x)) by {
                if w.push(s.last()).contains(x) {
                    let j = choose|j: int| 0 <= j < w.push(s.last()).len() && w.push(s.last())[j] == x;
                    if j < w.len() {
                        assert(w[j] == x);
                    }
                }
            }
        }
    }
}

/// A copy of `names` without the entries equal to `name`.
fn names_without(names: &Vec<String>, name: &String) -> (r: Vec<String>)
    ensures
        names_view(r@) == without(names_view(names@), name@),
{
    let mut r: Vec<String> = Vec::new();
    let mut i: usize = 0;
    while i < names.len()
        invariant
            i <= names@.len(),
            names_view(r@) == without(names_view(names@).subrange(0, i as int), name@),
        decreases names@.len() - i,
    {
        let ghost prefix = names_view(names@).subrange(0, i + 1);
        assert(prefix.drop_last() =~= names_view(names@).subrange(0, i as int));
        assert(prefix.last() == names@[i as int]@);
        if names[i] != *name {
            r.push(names[i].clone());
            assert(names_view(r@) =~= without(prefix, name@));
        }
        i = i + 1;
    }
    assert(names_view(names@).subrange(0, i as int) =~= names_view(names@));
    r
}

/// The fields of a tracker that keeps every node under its own id, tracks
/// only targets and lets only targets wait to reconnect.
spec fn fields_ok(nodes: Map<u32, NodeInfo>, targets: Seq<String>, pending: Seq<String>) -> bool {
    &&& nodes.dom().finite()
    &&& forall|k: u32| #[trigger]
        nodes.contains_key(k) ==> nodes[k].id == k && names_view(targets).contains(nodes[k].name@)
    &&& forall|i: int| 0 <= i < pending.len() ==> names_view(targets).contains(#[trigger] pending[i]@)
}

proof fn lemma_fields_ok(
    nodes: Map<u32, NodeInfo>,
    targets: Seq<String>,
    pending: Seq<String>,
    returned: Set<u32>,
)
    requires
        fields_ok(nodes, targets, pending),
    ensures
        (TrackerView {
            nodes: nodes.map_values(|n: NodeInfo| n@),
            targets: names_view(targets),
            pending: names_view(pending),
            returned,
        }).well_formed(),
{
    assert(nodes.map_values(|n: NodeInfo| n@).dom() =~= nodes.dom());
    assert forall|i: int| 0 <= i < names_view(pending).len() implies names_view(targets).contains(
        #[trigger] names_view(pending)[i],
    ) by {
        assert(names_view(pending)[i] == pending[i]@);
    }
}

impl NodeTracker {
    /// Every tracked node sits under its own id and is a target, and only
    /// targets wait to reconnect.
    #[verifier::type_invariant]
    spec fn consistent(self) -> bool {
        fields_ok(self.nodes@, self.targets@, self.pending_reconnect@)
    }

    /// The invariant, read on the model.
    proof fn lemma_consistent(&self)
        requires
            fields_ok(self.nodes@, self.targets@, self.pending_reconnect@),
        ensures
            self@.well_formed(),
    {
        lemma_fields_ok(self.nodes@, self.targets@, self.pending_reconnect@, self.returned@);
    }

    /// A tracker for the given target `node.name`s.
    pub fn new(targets: Vec<String>) -> (r: NodeTracker)
        ensures
            r@ == TrackerView::initial(names_view(targets@)),
            r@.well_formed(),
    {
        let nodes: HashMap<u32, NodeInfo> = HashMap::new();
        let pending_reconnect: Vec<String> = Vec::new();
        let returned: HashSet<u32> = HashSet::new();
        let r = NodeTracker { nodes, targets, pending_reconnect, returned };
        proof {
            r.lemma_consistent();
        }
        assert(r@.nodes =~= Map::<u32, NodeView>::empty());
        assert(r@.pending =~= Seq::<Seq<char>>::empty());
        r
    }

    /// Takes the node map out, leaving an empty one in its place.
    fn take_nodes(&mut self) -> (r: HashMap<u32, NodeInfo>)
        requires
            fields_ok(old(self).nodes@, old(self).targets@, old(self).pending_reconnect@),
        ensures
            r@ == old(self).nodes@,
            final(self).nodes@ == Map::<u32, NodeInfo>::empty(),
            final(self).targets@ == old(self).targets@,
            final(self).pending_reconnect@ == old(self).pending_reconnect@,
            final(self).returned@ == old(self).returned@,
    {
        let mut nodes: HashMap<u32, NodeInfo> = HashMap::new();
        std::mem::swap(&mut nodes, &mut self.nodes);
        nodes
    }

    /// Records in `returned` whether node `id` came back after its name
    /// disappeared.
    fn set_returned(&mut self, id: u32, back: bool)
        ensures
            final(self).nodes@ == old(self).nodes@,
            final(self).targets@ == old(self).targets@,
            final(self).pending_reconnect@ == old(self).pending_reconnect@,
            final(self).returned@ == (if back {
                old(self).returned@.insert(id)
            } else {
                old(self).returned@.remove(id)
            }),
    {
        proof {
            use_type_invariant(&*self);
        }
        let mut returned: HashSet<u32> = HashSet::new();
        std::mem::swap(&mut returned, &mut self.returned);
        if back {
            returned.insert(id);
        } else {
            returned.remove(&id);
        }
        self.returned = returned;
    }

    /// Called when the registry announces a global.
    pub fn on_global(&mut self, global: &GlobalInfo)
        ensures
            final(self)@ == old(self)@.on_global(global@),
            final(self)@.well_formed(),
    {
        proof {
            use_type_invariant(&*self);
            self.lemma_consistent();
        }
        if global.kind != ObjectKind::Node {
            return;
        }
        let props = match &global.props {
            Some(p) => p,
            None => return,
        };
        let name = match prop_get(props, "node.name") {
            Some(n) => n.clone(),
            None => return,
        };
        if !holds_name(&self.targets, &name) {
            return;
        }
        let ghost before = self@;
        let was_pending = holds_name(&self.pending_reconnect, &name);
        let mut nodes = self.take_nodes();
        let ghost old_nodes = nodes@;
        nodes.insert(global.id, NodeInfo { id: global.id, name: name.clone(), linked: false });
        proof {
            assert forall|k: u32| #[trigger] nodes@.contains_key(k) implies nodes@[k].id == k
                && names_view(self.targets@).contains(nodes@[k].name@) by {
                if k != global.id {
                    assert(old_nodes.contains_key(k));
                }
            }
        }
        self.nodes = nodes;
        self.set_returned(global.id, was_pending);
        if was_pending {
            let rest = names_without(&self.pending_reconnect, &name);
            proof {
                lemma_without_contents(before.pending, name@);
                assert forall|i: int| 0 <= i < rest@.len() implies names_view(self.targets@).contains(
                    #[trigger] rest@[i]@,
                ) by {
                    assert(names_view(rest@)[i] == rest@[i]@);
                    assert(names_view(rest@).contains(rest@[i]@));
                    assert(before.pending.contains(rest@[i]@));
                    let j = choose|j: int| 0 <= j < before.pending.len() && before.pending[j] == rest@[i]@;
                    assert(before.targets.contains(before.pending[j]));
                }
            }
            self.pending_reconnect = rest;
        } else {
            proof {
                lemma_without_absent(before.pending, name@);
            }
        }
        proof {
            self.lemma_consistent();
            let after = before.on_global(global@);
            assert(self@.nodes =~= after.nodes);
            assert(self@.pending == after.pending);
            assert(self@.targets == after.targets);
            assert(self@.returned == after.returned);
        }
    }

    /// Called when the registry removes global `id`.
    pub fn on_global_remove(&mut self, id: u32)
        ensures
            final(self)@ == old(self)@.on_global_remove(id),
            final(self)@.well_formed(),
    {
        proof {
            use_type_invariant(&*self);
            self.lemma_consistent();
        }
        let ghost before = self@;
        if !self.nodes.contains_key(&id) {
            return;
        }
        let mut nodes = self.take_nodes();
        let ghost old_nodes = nodes@;
        let removed = nodes.remove(&id);
        proof {
            assert forall|k: u32| #[trigger] nodes@.contains_key(k) implies nodes@[k].id == k
                && names_view(self.targets@).contains(nodes@[k].name@) by {
                assert(old_nodes.contains_key(k));
            }
        }
        self.nodes = nodes;
        self.set_returned(id, false);
        if let Some(info) = removed {
            let mut pending: Vec<String> = Vec::new();
            std::mem::swap(&mut pending, &mut self.pending_reconnect);
            let ghost old_pending = pending@;
            pending.push(info.name);
            proof {
                assert(before.nodes[id] == old_nodes[id]@);
                assert(before.targets.contains(before.nodes[id].name));
                assert forall|i: int| 0 <= i < pending@.len() implies names_view(self.targets@).contains(
                    #[trigger] pending@[i]@,
                ) by {
                    if i < old_pending.len() {
                        assert(pending@[i] == old_pending[i]);
                        assert(before.pending[i] == old_pending[i]@);
                    }
                }
            }
            self.pending_reconnect = pending;
            proof {
                self.lemma_consistent();
                let after = before.on_global_remove(id);
                assert(self@.nodes =~= after.nodes);
                assert(self@.pending =~= after.pending);
            }
        }
    }

    /// The tracked nodes that are not linked yet, in no particular order.
    pub fn unlinked_nodes(&self) -> (r: Vec<NodeInfo>)
        ensures
            nodes_view(r@).to_set() == self@.unlinked(),
            nodes_view(r@).no_duplicates(),
    {
        self.collect_unlinked(false)
    }

    /// The tracked nodes that are not linked, and with `only_returned` only
    /// those that came back after disappearing.
    fn collect_unlinked(&self, only_returned: bool) -> (r: Vec<NodeInfo>)
        ensures
            nodes_view(r@).to_set() == self@.wanted(only_returned),
            nodes_view(r@).no_duplicates(),
    {
        proof {
            use_type_invariant(self);
            self.lemma_consistent();
        }
        let keys = keys_of(&self.nodes);
        let ghost m = self@.nodes;
        let ghost keep = |v: NodeView| self@.keeps(v, only_returned);
        let mut r: Vec<NodeInfo> = Vec::new();
        let mut i: usize = 0;
        while i < keys.len()
            invariant
                self@.well_formed(),
                m == self@.nodes,
                keep == (|v: NodeView| self@.keeps(v, only_returned)),
                keys@.to_set() == self.nodes@.dom(),
                i <= keys@.len(),
                nodes_view(r@) == picked(m, keys@.take(i as int), keep),
            decreases keys@.len() - i,
        {
            let k = keys[i];
            proof {
                lemma_picked_step(m, keys@, i as int, keep);
                assert(keys@.to_set().contains(k));
            }
            let n = self.nodes.get(&k).unwrap();
            assert(self.nodes@.contains_key(k));
            assert(self.nodes@[k] == *n);
            assert(m.contains_key(k));
            assert(m[k] == n@);
            assert(n@.id == k);
            assert(keep(m[k]) == (!n.linked && (!only_returned || self.returned@.contains(k))));
            let ghost before = nodes_view(r@);
            if !n.linked && (!only_returned || self.returned.contains(&k)) {
                r.push(n.duplicate());
                assert(nodes_view(r@) =~= before.push(n@));
            }
            i = i + 1;
        }
        proof {
            assert(keys@.take(keys@.len() as int) =~= keys@);
            assert(m.dom() =~= self.nodes@.dom());
            lemma_picked_all(m, |v: NodeView| v.id, keys@, keep);
            assert(kept_entries(m, |v: NodeView| v.id, keep) =~= self@.wanted(only_returned));
        }
        r
    }

    /// The nodes whose links have to be made again after they came back:
    /// the tracked nodes that reappeared after a node of their name
    /// disappeared, and are not linked yet; in no particular order.
    pub fn nodes_needing_reconnect(&self) -> (r: Vec<NodeInfo>)
        ensures
            nodes_view(r@).to_set() == self@.needing_reconnect(),
            nodes_view(r@).no_duplicates(),
    {
        self.collect_unlinked(true)
    }

    fn set_linked(&mut self, id: u32, linked: bool)
        ensures
            final(self)@ == old(self)@.set_linked(id, linked),
            final(self)@.well_formed(),
    {
        proof {
            use_type_invariant(&*self);
            self.lemma_consistent();
        }
        let ghost before = self@;
        let updated = match self.nodes.get(&id) {
            Some(n) => Some(NodeInfo { id: n.id, name: n.name.clone(), linked }),
            None => None,
        };
        if let Some(u) = updated {
            let mut nodes = self.take_nodes();
            let ghost old_nodes = nodes@;
            nodes.insert(id, u);
            proof {
                assert forall|k: u32| #[trigger] nodes@.contains_key(k) implies nodes@[k].id == k
                    && names_view(self.targets@).contains(nodes@[k].name@) by {
                    assert(old_nodes.contains_key(k));
                }
            }
            self.nodes = nodes;
            proof {
                self.lemma_consistent();
            }
            assert(self@.nodes =~= before.set_linked(id, linked).nodes);
        }
    }

    /// Marks node `id` as linked.
    pub fn mark_linked(&mut self, id: u32)
        ensures
            final(self)@ == old(self)@.set_linked(id, true),
            final(self)@.well_formed(),
    {
        self.set_linked(id, true);
    }

    /// Resets the linked flag of node `id` (when its links are gone).
    pub fn mark_unlinked(&mut self, id: u32)
        ensures
            final(self)@ == old(self)@.set_linked(id, false),
            final(self)@.well_formed(),
    {
        self.set_linked(id, false);
    }

    /// Records that the linking pass made `made` links into node `id`: the
    /// node is marked linked only when at least one link was made.
    pub fn record_links(&mut self, id: u32, made: usize)
        ensures
            final(self)@ == old(self)@.links_made(id, made as nat),
            final(self)@.well_formed(),
    {
        if made > 0 {
            self.set_linked(id, true);
        } else {
            proof {
                use_type_invariant(&*self);
                self.lemma_consistent();
            }
        }
    }

    /// How many target nodes are present.
    pub fn seen_count(&self) -> (r: usize)
        ensures
            r == self@.nodes.len(),
    {
        proof {
            assert(self.nodes@.dom() =~= self@.nodes.dom());
        }
        self.nodes.len()
    }

    /// How many target names the tracker looks for.
    pub fn target_count(&self) -> (r: usize)
        ensures
            r == self@.targets.len(),
    {
        self.targets.len()
    }
}

} // verus!
