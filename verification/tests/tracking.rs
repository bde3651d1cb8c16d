use pw_merger::global::{GlobalInfo, ObjectKind};
use pw_merger::merger::{
    link_properties, null_sink_properties, plan_links, LinkError, PlannedLink, PortDirection,
    PortInfo, PortTracker,
};
use pw_merger::registry::{NodeInfo, NodeTracker};

fn props(pairs: &[(&str, &str)]) -> Option<Vec<(String, String)>> {
    Some(pairs.iter().map(|(k, v)| (k.to_string(), v.to_string())).collect())
}

fn node(id: u32, name: &str) -> GlobalInfo {
    GlobalInfo { id, kind: ObjectKind::Node, props: props(&[("node.name", name)]) }
}

fn port(id: u32, node_id: &str, name: &str, dir: &str) -> GlobalInfo {
    GlobalInfo {
        id,
        kind: ObjectKind::Port,
        props: props(&[("node.id", node_id), ("port.name", name), ("port.direction", dir)]),
    }
}

fn ids(nodes: &[NodeInfo]) -> Vec<u32> {
    let mut v: Vec<u32> = nodes.iter().map(|n| n.id).collect();
    v.sort();
    v
}

fn tracker() -> NodeTracker {
    NodeTracker::new(vec!["hdmi".to_string(), "speakers".to_string()])
}

#[test]
fn new_tracker_knows_its_targets() {
    let t = tracker();
    assert_eq!(t.target_count(), 2);
    assert_eq!(t.seen_count(), 0);
    assert!(t.unlinked_nodes().is_empty());
}

#[test]
fn target_nodes_are_tracked_unlinked() {
    let mut t = tracker();
    t.on_global(&node(55, "hdmi"));
    t.on_global(&node(61, "speakers"));
    assert_eq!(t.seen_count(), 2);
    assert_eq!(ids(&t.unlinked_nodes()), vec![55, 61]);
    let n = t.unlinked_nodes().into_iter().find(|n| n.id == 55).unwrap();
    assert_eq!(n.name, "hdmi");
    assert!(!n.linked);
}

#[test]
fn other_globals_are_ignored() {
    let mut t = tracker();
    t.on_global(&node(70, "mic"));
    t.on_global(&GlobalInfo { id: 71, kind: ObjectKind::Port, props: props(&[("node.name", "hdmi")]) });
    t.on_global(&GlobalInfo { id: 72, kind: ObjectKind::Node, props: None });
    t.on_global(&GlobalInfo { id: 73, kind: ObjectKind::Node, props: props(&[("media.class", "Audio/Sink")]) });
    assert_eq!(t.seen_count(), 0);
}

#[test]
fn linked_nodes_leave_the_unlinked_list() {
    let mut t = tracker();
    t.on_global(&node(55, "hdmi"));
    t.on_global(&node(61, "speakers"));
    t.mark_linked(55);
    assert_eq!(ids(&t.unlinked_nodes()), vec![61]);
    assert!(t.nodes_needing_reconnect().is_empty());
    t.mark_linked(99);
    assert_eq!(ids(&t.unlinked_nodes()), vec![61]);
    t.mark_unlinked(55);
    assert_eq!(ids(&t.unlinked_nodes()), vec![55, 61]);
}

#[test]
fn disappeared_node_is_linked_again_when_it_returns() {
    let mut t = tracker();
    t.on_global(&node(55, "hdmi"));
    t.mark_linked(55);
    assert!(t.unlinked_nodes().is_empty());
    t.on_global_remove(55);
    assert_eq!(t.seen_count(), 0);
    t.on_global_remove(55);
    t.on_global(&node(80, "hdmi"));
    assert_eq!(t.seen_count(), 1);
    assert_eq!(ids(&t.unlinked_nodes()), vec![80]);
}

#[test]
fn removing_an_unknown_global_changes_nothing() {
    let mut t = tracker();
    t.on_global(&node(55, "hdmi"));
    t.on_global_remove(12);
    assert_eq!(ids(&t.unlinked_nodes()), vec![55]);
}

fn ports_fixture() -> PortTracker {
    let mut p = PortTracker::new();
    p.on_global(&node(10, "Merged Output"));
    p.on_global(&node(20, "hdmi"));
    p.on_global(&port(101, "10", "monitor_FL", "out"));
    p.on_global(&port(102, "10", "monitor_FR", "out"));
    p.on_global(&port(103, "10", "playback_FL", "in"));
    p.on_global(&port(201, "20", "playback_FL", "in"));
    p.on_global(&port(202, "20", "playback_FR", "in"));
    p.on_global(&port(203, "20", "playback_RL", "sideways"));
    p
}

#[test]
fn ports_are_found_by_node_name_and_direction() {
    let p = ports_fixture();
    let mut mons: Vec<u32> = p.monitor_ports("Merged Output").iter().map(|x| x.id).collect();
    mons.sort();
    assert_eq!(mons, vec![101, 102]);
    let mut pbs: Vec<u32> = p.playback_ports("hdmi").iter().map(|x| x.id).collect();
    pbs.sort();
    assert_eq!(pbs, vec![201, 202]);
    assert!(p.monitor_ports("unknown").is_empty());
    assert!(p.monitor_ports("hdmi").is_empty());
}

#[test]
fn unparsable_node_id_counts_as_zero() {
    let mut p = PortTracker::new();
    p.on_global(&node(0, "zero"));
    p.on_global(&port(5, "abc", "monitor_MONO", "out"));
    let mons = p.monitor_ports("zero");
    assert_eq!(mons.len(), 1);
    assert_eq!(mons[0].node_id, 0);
    assert_eq!(mons[0].direction, PortDirection::Out);
}

#[test]
fn link_plan_pairs_channels() {
    let p = ports_fixture();
    let mut links = p.link_plan("Merged Output", "hdmi").unwrap();
    links.sort_by_key(|l| l.output_port);
    assert_eq!(
        links,
        vec![
            planned(101, "FL", Some(201)),
            planned(102, "FR", Some(202)),
        ]
    );
}

#[test]
fn link_plan_errors() {
    let p = ports_fixture();
    let e = p.link_plan("nothing", "hdmi").unwrap_err();
    assert_eq!(e, LinkError::NoMonitorPorts("nothing".to_string()));
    assert_eq!(e.message(), "no monitor ports found on 'nothing'");
    let e = p.link_plan("Merged Output", "ghost").unwrap_err();
    assert_eq!(e, LinkError::NoPlaybackPorts("ghost".to_string()));
    assert_eq!(e.message(), "no playback ports found on 'ghost'");
}

fn planned(output_port: u32, channel: &str, input_port: Option<u32>) -> PlannedLink {
    PlannedLink { output_port, channel: channel.to_string(), input_port }
}

fn pi(id: u32, name: &str, direction: PortDirection) -> PortInfo {
    PortInfo { id, node_id: 1, name: name.to_string(), direction }
}

#[test]
fn plan_links_keeps_monitor_order_and_skips_unmatched() {
    let mons = vec![
        pi(1, "monitor_FR", PortDirection::Out),
        pi(2, "monitor_LFE", PortDirection::Out),
        pi(3, "monitor_FL", PortDirection::Out),
    ];
    let pbs = vec![
        pi(7, "playback_FL", PortDirection::In),
        pi(8, "playback_FR", PortDirection::In),
        pi(9, "other_FR", PortDirection::In),
    ];
    assert_eq!(
        plan_links(&mons, &pbs),
        vec![planned(1, "FR", Some(8)), planned(2, "LFE", None), planned(3, "FL", Some(7))]
    );
    assert_eq!(
        plan_links(&mons, &vec![]),
        vec![planned(1, "FR", None), planned(2, "LFE", None), planned(3, "FL", None)]
    );
}

#[test]
fn object_properties() {
    let p = null_sink_properties("Speakers + HDMI", "Movie");
    let want: Vec<(String, String)> = [
        ("factory.name", "support.null-audio-sink"),
        ("node.name", "Speakers + HDMI"),
        ("node.description", "Speakers + HDMI"),
        ("media.class", "Audio/Sink"),
        ("media.role", "Movie"),
        ("monitor.channel-volumes", "true"),
        ("audio.position", "FL,FR"),
    ]
    .iter()
    .map(|(k, v)| (k.to_string(), v.to_string()))
    .collect();
    assert_eq!(p, want);
    let l = link_properties(101, 4294967295);
    assert_eq!(
        l,
        vec![
            ("link.output.port".to_string(), "101".to_string()),
            ("link.input.port".to_string(), "4294967295".to_string()),
            ("object.linger".to_string(), "true".to_string()),
        ]
    );
}

#[test]
fn reannounced_linked_node_starts_unlinked() {
    let mut t = tracker();
    t.on_global(&node(55, "hdmi"));
    t.mark_linked(55);
    t.on_global(&node(55, "hdmi"));
    assert_eq!(ids(&t.unlinked_nodes()), vec![55]);
}

#[test]
fn only_returning_nodes_need_reconnecting() {
    let mut t = tracker();
    t.on_global(&node(55, "hdmi"));
    assert!(t.nodes_needing_reconnect().is_empty());
    assert_eq!(ids(&t.unlinked_nodes()), vec![55]);
    t.mark_linked(55);
    t.on_global_remove(55);
    t.on_global(&node(80, "hdmi"));
    assert_eq!(ids(&t.nodes_needing_reconnect()), vec![80]);
    t.mark_linked(80);
    assert!(t.nodes_needing_reconnect().is_empty());
}

#[test]
fn a_node_counts_as_linked_only_when_links_were_made() {
    let mut t = tracker();
    t.on_global(&node(55, "hdmi"));
    t.record_links(55, 0);
    assert_eq!(ids(&t.unlinked_nodes()), vec![55]);
    t.record_links(55, 2);
    assert!(t.unlinked_nodes().is_empty());
}

#[test]
fn target_count_and_seen_count_after_many_events() {
    let mut t = tracker();
    t.on_global(&node(55, "hdmi"));
    t.on_global(&node(61, "speakers"));
    t.mark_linked(55);
    t.on_global_remove(61);
    t.on_global(&node(62, "speakers"));
    assert_eq!(t.target_count(), 2);
    assert_eq!(t.seen_count(), t.unlinked_nodes().len() + 1);
}

#[test]
fn a_renamed_node_id_replaces_the_old_one() {
    let mut p = PortTracker::new();
    p.on_global(&node(10, "sink"));
    p.on_global(&node(11, "sink"));
    p.on_global(&port(101, "10", "monitor_FL", "out"));
    p.on_global(&port(111, "11", "monitor_FL", "out"));
    let mons: Vec<u32> = p.monitor_ports("sink").iter().map(|x| x.id).collect();
    assert_eq!(mons, vec![111]);
}

#[test]
fn a_second_linking_pass_finds_nothing_to_link() {
    let mut t = tracker();
    t.on_global(&node(55, "hdmi"));
    t.on_global(&node(61, "speakers"));
    for n in t.unlinked_nodes() {
        t.record_links(n.id, 2);
    }
    assert!(t.unlinked_nodes().is_empty());
    assert!(t.nodes_needing_reconnect().is_empty());
    assert_eq!(t.seen_count(), 2);
}

#[test]
fn seen_count_follows_announcements_and_removals() {
    let mut t = tracker();
    t.on_global(&node(55, "hdmi"));
    t.on_global(&node(61, "speakers"));
    t.on_global(&node(70, "mic"));
    t.on_global_remove(55);
    t.on_global_remove(55);
    t.on_global(&node(56, "hdmi"));
    t.mark_linked(56);
    t.on_global_remove(99);
    assert_eq!(t.seen_count(), 2);
    t.on_global_remove(61);
    assert_eq!(t.seen_count(), 1);
}

#[test]
fn default_tracker_has_no_targets() {
    let mut t = NodeTracker::default();
    assert_eq!(t.target_count(), 0);
    assert_eq!(t.seen_count(), 0);
    t.on_global(&node(55, "hdmi"));
    assert_eq!(t.seen_count(), 0);
    assert!(format!("{:?}", t).contains("NodeTracker"));
}
