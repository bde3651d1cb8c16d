//! Discovery of the audio sinks: which registry globals are audio sinks,
//! the list of them sorted by name, and the table that `--list` prints.
use std::collections::HashMap;
use vstd::prelude::*;
use vstd::seq_lib::*;

use crate::global::{lookup, prop_get, GlobalInfo, GlobalView, ObjectKind};
use crate::keyed::{kept_entries, keys_of, lemma_picked_all, lemma_picked_step, picked};
use crate::text::{
    decimal, decimal_string, has_prefix, lemma_bytes_le_total, lemma_bytes_le_transitive,
    name_le, name_le_exec, pad_right, push_char, push_padded, push_str, starts_with,
};

verus! {

broadcast use vstd::std_specs::hash::group_hash_axioms;

/// A discovered audio sink device.
#[derive(Clone, Debug, PartialEq, Eq, Hash)]
pub struct SinkDevice {
    /// PipeWire global ID.
    pub id: u32,
    /// `node.name`: the unique name by which a device can be given.
    pub name: String,
    /// Human-readable description from `node.description`.
    pub description: String,
    /// The bus path or device name of the card, if available.
    pub driver: String,
}

/// The model of a `SinkDevice`.
pub struct SinkView {
    pub id: u32,
    pub name: Seq<char>,
    pub description: Seq<char>,
    pub driver: Seq<char>,
}

impl View for SinkDevice {
    type V = SinkView;

    open spec fn view(&self) -> SinkView {
        SinkView {
            id: self.id,
            name: self.name@,
            description: self.description@,
            driver: self.driver@,
        }
    }
}

/// The models of a list of sinks.
pub open spec fn sinks_view(s: Seq<SinkDevice>) -> Seq<SinkView> {
    s.map_values(|d: SinkDevice| d@)
}

/// How a sink is shown: its description followed by its name in brackets,
/// or just the name when the description is empty or the same as the name.
pub open spec fn display_name_spec(s: SinkView) -> Seq<char> {
    if s.description.len() == 0 || s.description == s.name {
        s.name
    } else {
        s.description + " ("@ + s.name + ")"@
    }
}

/// The prefix of node names that are set aside as the merger's own, to
/// avoid loops: a sink whose node name starts with it is never offered as a
/// target.
pub open spec fn own_prefix() -> Seq<char> {
    "pw-merger"@
}

/// The sink that a registry global describes: a node of media class
/// `Audio/Sink` with a `node.name` that does not start with `pw-merger`.
/// The description defaults to empty; the driver is the `device.bus-path`,
/// else the `device.name`, else empty.
pub open spec fn parse_sink_spec(g: GlobalView) -> Option<SinkView> {
    if g.kind != ObjectKind::Node {
        None
    } else {
        match g.props {
            None => None,
            Some(p) => match lookup(p, "media.class"@) {
                None => None,
                Some(class) => if class != "Audio/Sink"@ {
                    None
                } else {
                    match lookup(p, "node.name"@) {
                        None => None,
                        Some(name) => if has_prefix(name, own_prefix()) {
                            None
                        } else {
                            Some(
                                SinkView {
                                    id: g.id,
                                    name,
                                    description: match lookup(p, "node.description"@) {
                                        Some(d) => d,
                                        None => Seq::empty(),
                                    },
                                    driver: match lookup(p, "device.bus-path"@) {
                                        Some(d) => d,
                                        None => match lookup(p, "device.name"@) {
                                            Some(d) => d,
                                            None => Seq::empty(),
                                        },
                                    },
                                },
                            )
                        },
                    }
                },
            },
        }
    }
}

impl SinkDevice {
    /// A copy of this record.
    pub fn duplicate(&self) -> (r: SinkDevice)
        ensures
            r@ == self@,
    {
        SinkDevice {
            id: self.id,
            name: self.name.clone(),
            description: self.description.clone(),
            driver: self.driver.clone(),
        }
    }

    /// The name under which the sink is shown in a table.
    pub fn display_name(&self) -> (r: String)
        ensures
            r@ == display_name_spec(self@),
    {
        if self.description.as_str().is_empty() || self.description == self.name {
            self.name.clone()
        } else {
            let mut s = self.description.clone();
            push_str(&mut s, " (");
            push_str(&mut s, self.name.as_str());
            push_str(&mut s, ")");
            s
        }
    }
}

/// The string value of property `key`, or empty.
fn prop_or_empty(props: &Vec<(String, String)>, key: &str) -> (r: String)
    ensures
        r@ == match lookup(crate::global::props_view(props@), key@) {
            Some(v) => v,
            None => Seq::empty(),
        },
{
    match prop_get(props, key) {
        Some(v) => v.clone(),
        None => String::new(),
    }
}

/// The sink that a registry global describes, if it is one (see
/// `parse_sink_spec`).
pub fn parse_sink(global: &GlobalInfo) -> (r: Option<SinkDevice>)
    ensures
        match r {
            Some(s) => parse_sink_spec(global@) == Some(s@),
            None => parse_sink_spec(global@) is None,
        },
{
    if global.kind != ObjectKind::Node {
        return None;
    }
    let props = match &global.props {
        Some(p) => p,
        None => return None,
    };
    let media_class = match prop_get(props, "media.class") {
        Some(c) => c,
        None => return None,
    };
    if !crate::text::same_text(media_class, "Audio/Sink") {
        return None;
    }
    let name = match prop_get(props, "node.name") {
        Some(n) => n.clone(),
        None => return None,
    };
    if starts_with(name.as_str(), "pw-merger") {
        return None;
    }
    let description = prop_or_empty(props, "node.description");
    let driver = match prop_get(props, "device.bus-path") {
        Some(d) => d.clone(),
        None => prop_or_empty(props, "device.name"),
    };
    Some(SinkDevice { id: global.id, name, description, driver })
}

/// The sinks, sorted by name: each name sorts before or together with the
/// next one.
pub open spec fn sorted_by_name(s: Seq<SinkView>) -> bool {
    forall|i: int, j: int| 0 <= i < j < s.len() ==> name_le(#[trigger] s[i].name, #[trigger] s[j].name)
}

/// A sink read from the registry carries the global's id, is of media class
/// `Audio/Sink`, and is never one of the merger's own `pw-merger` sinks.
pub proof fn law_parsed_sink_is_a_foreign_audio_sink(g: GlobalView)
    requires
        parse_sink_spec(g) is Some,
    ensures
        parse_sink_spec(g)->0.id == g.id,
        g.kind == ObjectKind::Node,
        g.props is Some,
        lookup(g.props->0, "media.class"@) == Some("Audio/Sink"@),
        lookup(g.props->0, "node.name"@) == Some(parse_sink_spec(g)->0.name),
        !has_prefix(parse_sink_spec(g)->0.name, own_prefix()),
{
}

/// A sink read from the registry is described by the global's
/// `node.description`, or by nothing when it has none; its driver is the
/// `device.bus-path`, else the `device.name`, else nothing.
pub proof fn law_parsed_sink_keeps_the_description(g: GlobalView)
    requires
        parse_sink_spec(g) is Some,
    ensures
        lookup(g.props->0, "node.description"@) matches Some(d) ==> parse_sink_spec(g)->0.description == d,
        lookup(g.props->0, "node.description"@) is None ==> parse_sink_spec(g)->0.description.len() == 0,
        lookup(g.props->0, "device.bus-path"@) matches Some(b) ==> parse_sink_spec(g)->0.driver == b,
        lookup(g.props->0, "device.bus-path"@) is None ==> parse_sink_spec(g)->0.driver == (match lookup(
            g.props->0,
            "device.name"@,
        ) {
            Some(n) => n,
            None => Seq::<char>::empty(),
        }),
{
}

/// Every audio sink that the registry announces, unless its node name
/// starts with `pw-merger`, is read as a sink with the global's id and node
/// name.
pub proof fn law_every_foreign_audio_sink_is_read(g: GlobalView)
    requires
        g.kind == ObjectKind::Node,
        g.props is Some,
        lookup(g.props->0, "media.class"@) == Some("Audio/Sink"@),
        lookup(g.props->0, "node.name"@) matches Some(n) && !has_prefix(n, own_prefix()),
    ensures
        parse_sink_spec(g) is Some,
        parse_sink_spec(g)->0.id == g.id,
        lookup(g.props->0, "node.name"@) == Some(parse_sink_spec(g)->0.name),
{
}

/// The latest announcement of a global id decides what the registry holds
/// for it: a sink replaces the one seen before under the same id.
pub proof fn law_latest_sink_announcement_wins(m: Map<u32, SinkView>, g: GlobalView)
    requires
        registry_well_formed(m),
        parse_sink_spec(g) is Some,
    ensures
        registry_on_global(m, g).contains_key(g.id),
        registry_on_global(m, g)[g.id] == parse_sink_spec(g)->0,
        sink_set(registry_on_global(m, g)).contains(parse_sink_spec(g)->0),
        m.contains_key(g.id) && m[g.id] != parse_sink_spec(g)->0 ==> !sink_set(registry_on_global(m, g)).contains(m[g.id]),
{
}

/// Sorts sinks by name, in the byte order in which Rust compares strings.
pub fn sort_by_name(sinks: &Vec<SinkDevice>) -> (r: Vec<SinkDevice>)
    ensures
        sorted_by_name(sinks_view(r@)),
        sinks_view(r@).to_multiset() == sinks_view(sinks@).to_multiset(),
{
    broadcast use {vstd::seq_lib::group_to_multiset_ensures, to_multiset_insert, to_multiset_build};

    let mut r: Vec<SinkDevice> = Vec::new();
    let mut i: usize = 0;
    assert(sinks_view(sinks@).subrange(0, 0) =~= Seq::<SinkView>::empty());
    assert(sinks_view(r@) =~= Seq::<SinkView>::empty());
    while i < sinks.len()
        invariant
            i <= sinks@.len(),
            sorted_by_name(sinks_view(r@)),
            sinks_view(r@).to_multiset() == sinks_view(sinks@).subrange(0, i as int).to_multiset(),
        decreases sinks@.len() - i,
    {
        let x = sinks[i].duplicate();
        let mut pos: usize = 0;
        while pos < r.len() && name_le_exec(&r[pos].name, &x.name)
            invariant
                pos <= r@.len(),
                forall|k: int| 0 <= k < pos ==> name_le(#[trigger] r@[k].name@, x.name@),
            decreases r@.len() - pos,
        {
            pos = pos + 1;
        }
        let ghost old_r = sinks_view(r@);
        proof {
            if pos < r@.len() {
                lemma_bytes_le_total(
                    vstd::utf8::encode_utf8(r@[pos as int].name@),
                    vstd::utf8::encode_utf8(x.name@),
                );
            }
        }
        r.insert(pos, x);
        proof {
            let xv = sinks@[i as int]@;
            assert(sinks_view(r@) =~= old_r.insert(pos as int, xv));
            assert forall|a: int, b: int|
                0 <= a < b < sinks_view(r@).len() implies name_le(
                #[trigger] sinks_view(r@)[a].name,
                #[trigger] sinks_view(r@)[b].name,
            ) by {
                let s = sinks_view(r@);
                if b < pos {
                    assert(s[a] == old_r[a] && s[b] == old_r[b]);
                } else if b == pos {
                    assert(s[a] == old_r[a]);
                } else if a == pos {
                    assert(s[b] == old_r[b - 1]);
                    if b - 1 > pos {
                        assert(name_le(old_r[pos as int].name, old_r[b - 1].name));
                        lemma_bytes_le_transitive(
                            vstd::utf8::encode_utf8(xv.name),
                            vstd::utf8::encode_utf8(old_r[pos as int].name),
                            vstd::utf8::encode_utf8(old_r[b - 1].name),
                        );
                    }
                } else if a < pos {
                    assert(s[a] == old_r[a] && s[b] == old_r[b - 1]);
                } else {
                    assert(s[a] == old_r[a - 1] && s[b] == old_r[b - 1]);
                }
            }
            let pre = sinks_view(sinks@).subrange(0, i as int);
            assert(sinks_view(sinks@).subrange(0, i + 1) =~= pre.push(xv));
            to_multiset_build(pre, xv);
            to_multiset_insert(old_r, pos as int, xv);
        }
        i = i + 1;
    }
    assert(sinks_view(sinks@).subrange(0, i as int) =~= sinks_view(sinks@));
    r
}

/// The audio sinks seen in the registry.
pub struct SinkRegistry {
    sinks: HashMap<u32, SinkDevice>,
}

/// The sinks seen so far, by global id.
pub open spec fn registry_well_formed(m: Map<u32, SinkView>) -> bool {
    &&& m.dom().finite()
    &&& forall|k: u32| #[trigger] m.contains_key(k) ==> m[k].id == k
}

impl View for SinkRegistry {
    type V = Map<u32, SinkView>;

    closed spec fn view(&self) -> Map<u32, SinkView> {
        self.sinks@.map_values(|s: SinkDevice| s@)
    }
}

/// A map of sinks keyed by their own ids gives a well-formed registry view.
proof fn lemma_registry_view(m: Map<u32, SinkDevice>)
    requires
        m.dom().finite(),
        forall|k: u32| #[trigger] m.contains_key(k) ==> m[k].id == k,
    ensures
        registry_well_formed(m.map_values(|s: SinkDevice| s@)),
{
    assert(m.map_values(|s: SinkDevice| s@).dom() =~= m.dom());
}

/// The set of sinks held in a registry map.
pub open spec fn sink_set(m: Map<u32, SinkView>) -> Set<SinkView> {
    Set::new(|s: SinkView| m.contains_key(s.id) && m[s.id] == s)
}

/// The registry announced `g`: a sink is recorded under its id, replacing
/// an earlier one of the same id; anything else changes nothing.
pub open spec fn registry_on_global(m: Map<u32, SinkView>, g: GlobalView) -> Map<u32, SinkView> {
    match parse_sink_spec(g) {
        Some(s) => m.insert(s.id, s),
        None => m,
    }
}

impl SinkRegistry {
    /// Every sink sits under its own id.
    #[verifier::type_invariant]
    spec fn keyed_by_id(self) -> bool {
        registry_well_formed(self@)
    }

    /// A registry that has seen nothing.
    pub fn new() -> (r: SinkRegistry)
        ensures
            r@ == Map::<u32, SinkView>::empty(),
            registry_well_formed(r@),
    {
        let sinks: HashMap<u32, SinkDevice> = HashMap::new();
        proof {
            lemma_registry_view(sinks@);
        }
        let r = SinkRegistry { sinks };
        assert(r@ =~= Map::<u32, SinkView>::empty());
        r
    }

    /// Called when the registry announces a global.
    pub fn on_global(&mut self, global: &GlobalInfo)
        ensures
            final(self)@ == registry_on_global(old(self)@, global@),
            registry_well_formed(final(self)@),
    {
        proof {
            use_type_invariant(&*self);
        }
        let ghost before = self@;
        if let Some(sink) = parse_sink(global) {
            let id = sink.id;
            let mut sinks: HashMap<u32, SinkDevice> = HashMap::new();
            proof {
                lemma_registry_view(sinks@);
            }
            std::mem::swap(&mut sinks, &mut self.sinks);
            sinks.insert(id, sink);
            proof {
                assert forall|k: u32| #[trigger] sinks@.contains_key(k) implies sinks@[k].id == k by {
                    if k != id {
                        assert(before.contains_key(k));
                    }
                }
                lemma_registry_view(sinks@);
            }
            self.sinks = sinks;
            proof {
                assert(self@ =~= registry_on_global(before, global@));
                assert forall|k: u32| #[trigger] self@.contains_key(k) implies self@[k].id == k by {
                    if k != id {
                        assert(before.contains_key(k));
                    }
                }
            }
        }
    }

    /// The sinks seen, sorted by name.
    pub fn sorted_sinks(&self) -> (r: Vec<SinkDevice>)
        ensures
            sorted_by_name(sinks_view(r@)),
            sinks_view(r@).to_set() == sink_set(self@),
            sinks_view(r@).no_duplicates(),
    {
        proof {
            use_type_invariant(self);
        }
        let all = self.collect();
        let r = sort_by_name(&all);
        proof {
            let a = sinks_view(all@);
            let b = sinks_view(r@);
            assert forall|s: SinkView| b.to_set().contains(s) <==> a.to_set().contains(s) by {
                broadcast use vstd::seq_lib::group_to_multiset_ensures;

                assert(b.contains(s) <==> b.to_multiset().count(s) > 0);
                assert(a.contains(s) <==> a.to_multiset().count(s) > 0);
            }
            assert(b.to_set() =~= a.to_set());
            a.lemma_multiset_has_no_duplicates();
            b.lemma_multiset_has_no_duplicates_conv();
        }
        r
    }

    fn collect(&self) -> (r: Vec<SinkDevice>)
        requires
            registry_well_formed(self@),
        ensures
            sinks_view(r@).to_set() == sink_set(self@),
            sinks_view(r@).no_duplicates(),
    {
        let keys = keys_of(&self.sinks);
        let ghost m = self@;
        let ghost keep = |s: SinkView| true;
        let mut r: Vec<SinkDevice> = Vec::new();
        let mut i: usize = 0;
        while i < keys.len()
            invariant
                m == self@,
                keep == (|s: SinkView| true),
                keys@.to_set() == self.sinks@.dom(),
                i <= keys@.len(),
                sinks_view(r@) == picked(m, keys@.take(i as int), keep),
            decreases keys@.len() - i,
        {
            let k = keys[i];
            proof {
                lemma_picked_step(m, keys@, i as int, keep);
                assert(keys@.to_set().contains(k));
            }
            let d = self.sinks.get(&k).unwrap();
            assert(self.sinks@[k] == *d);
            assert(m[k] == d@);
            let ghost before = sinks_view(r@);
            r.push(d.duplicate());
            assert(sinks_view(r@) =~= before.push(d@));
            i = i + 1;
        }
        proof {
            assert(keys@.take(keys@.len() as int) =~= keys@);
            assert(m.dom() =~= self.sinks@.dom());
            lemma_picked_all(m, |s: SinkView| s.id, keys@, keep);
            assert(kept_entries(m, |s: SinkView| s.id, keep) =~= sink_set(self@));
        }
        r
    }
}

/// `n` dashes.
pub open spec fn dashes(n: nat) -> Seq<char> {
    Seq::new(n, |i: int| '-')
}

/// The column headings of the sink table.
pub open spec fn list_header() -> Seq<char> {
    "  "@ + pad_right("ID"@, 4) + "  "@ + pad_right("NAME"@, 40) + "  DESCRIPTION"@
}

/// One row of the sink table: the id, the name and the description (`-`
/// when there is none).
pub open spec fn sink_row(s: SinkView) -> Seq<char> {
    "  "@ + pad_right(decimal(s.id as nat), 4) + "  "@ + pad_right(s.name, 40) + "  "@ + (if s.description.len() == 0 {
        "-"@
    } else {
        s.description
    })
}

/// A row of the `--list` table: two spaces, the id left-aligned in a
/// column of at least 4, two spaces, the whole node name left-aligned in a
/// column of at least 40 (padded with spaces, never cut), two spaces, and
/// the description, or `-` when there is none.
pub proof fn law_row_holds_id_whole_name_and_description(s: SinkView)
    ensures
        ({
            let row = sink_row(s);
            let id = decimal(s.id as nat);
            let id_w: int = if id.len() < 4 { 4 } else { id.len() as int };
            let name_at: int = 2 + id_w + 2;
            let name_w: int = if s.name.len() < 40 { 40 } else { s.name.len() as int };
            let desc_at: int = name_at + name_w + 2;
            let desc = if s.description.len() == 0 { "-"@ } else { s.description };
            &&& row.len() == desc_at + desc.len()
            &&& forall|k: int| 0 <= k < 2 ==> row[k] == ' '
            &&& row.subrange(2, 2 + id.len() as int) == id
            &&& forall|k: int| 2 + id.len() <= k < name_at ==> row[k] == ' '
            &&& row.subrange(name_at, name_at + s.name.len() as int) == s.name
            &&& forall|k: int| name_at + s.name.len() <= k < desc_at ==> row[k] == ' '
            &&& row.subrange(desc_at, row.len() as int) == desc
        }),
{
    let row = sink_row(s);
    let id = decimal(s.id as nat);
    let desc = if s.description.len() == 0 { "-"@ } else { s.description };
    reveal_strlit("  ");
    let a = "  "@;
    let b = pad_right(id, 4);
    let c = pad_right(s.name, 40);
    let name_at: int = (a.len() + b.len() + a.len()) as int;
    let desc_at: int = name_at + c.len() + a.len() as int;
    assert(row == a + b + a + c + a + desc);
    assert(row.subrange(2, 2 + id.len() as int) =~= id) by {
        assert forall|k: int| 0 <= k < id.len() implies row[2 + k] == id[k] by {
            assert(b[k] == id[k]);
        }
    }
    assert(row.subrange(name_at, name_at + s.name.len() as int) =~= s.name) by {
        assert forall|k: int| 0 <= k < s.name.len() implies row[name_at + k] == s.name[k] by {
            assert(c[k] == s.name[k]);
        }
    }
    assert forall|k: int| 2 + id.len() <= k < name_at implies row[k] == ' ' by {
        if k < 2 + b.len() {
            assert(b[k - 2] == ' ');
        }
    }
    assert forall|k: int| name_at + s.name.len() <= k < desc_at implies row[k] == ' ' by {
        if k < name_at + c.len() {
            assert(c[k - name_at] == ' ');
        }
    }
    assert(row.subrange(desc_at, row.len() as int) =~= desc);
}

/// The lines that `--list` prints for `sinks`: a table of them followed by
/// usage examples, or a hint when there are none.
pub open spec fn sink_list_spec(sinks: Seq<SinkView>) -> Seq<Seq<char>> {
    if sinks.len() == 0 {
        seq!["No audio sinks found.  Is PipeWire running?"@]
    } else {
        seq!["Available audio sinks:"@, ""@, list_header(), "  "@ + dashes(86)] + sinks.map_values(
            |s: SinkView| sink_row(s),
        ) + seq![
            ""@,
            "Usage:"@,
            "  pw-merger <ID_A> <ID_B>                  # merge two sinks"@,
            "  pw-merger <ID_A> <ID_B> <ID_C>           # merge three sinks"@,
            "  pw-merger -o \"My Speakers\" 55 61        # with custom name"@,
        ]
    }
}

fn text_line(t: &str) -> (r: String)
    ensures
        r@ == t@,
{
    t.to_owned()
}

fn header_line() -> (r: String)
    ensures
        r@ == list_header(),
{
    let mut s = String::new();
    push_str(&mut s, "  ");
    push_padded(&mut s, "ID", 4);
    push_str(&mut s, "  ");
    push_padded(&mut s, "NAME", 40);
    push_str(&mut s, "  DESCRIPTION");
    assert(s@ =~= list_header());
    s
}

fn rule_line() -> (r: String)
    ensures
        r@ == "  "@ + dashes(86),
{
    let mut s = String::new();
    push_str(&mut s, "  ");
    let mut i: usize = 0;
    while i < 86
        invariant
            i <= 86,
            s@ == "  "@ + dashes(i as nat),
        decreases 86 - i,
    {
        push_char(&mut s, '-');
        assert(dashes((i + 1) as nat) =~= dashes(i as nat).push('-'));
        assert(s@ =~= "  "@ + dashes((i + 1) as nat));
        i = i + 1;
    }
    s
}

fn row_line(sink: &SinkDevice) -> (r: String)
    ensures
        r@ == sink_row(sink@),
{
    let mut s = String::new();
    push_str(&mut s, "  ");
    let id = decimal_string(sink.id as u64);
    push_padded(&mut s, id.as_str(), 4);
    push_str(&mut s, "  ");
    push_padded(&mut s, sink.name.as_str(), 40);
    push_str(&mut s, "  ");
    if sink.description.as_str().is_empty() {
        push_str(&mut s, "-");
    } else {
        push_str(&mut s, sink.description.as_str());
    }
    assert(s@ =~= sink_row(sink@));
    s
}

/// The lines that `--list` prints for the given sinks.
pub fn sink_list_lines(sinks: &Vec<SinkDevice>) -> (r: Vec<String>)
    ensures
        r@.map_values(|l: String| l@) == sink_list_spec(sinks_view(sinks@)),
{
    let mut r: Vec<String> = Vec::new();
    if sinks.len() == 0 {
        r.push(text_line("No audio sinks found.  Is PipeWire running?"));
        assert(r@.map_values(|l: String| l@) =~= sink_list_spec(sinks_view(sinks@)));
        return r;
    }
    r.push(text_line("Available audio sinks:"));
    r.push(text_line(""));
    r.push(header_line());
    r.push(rule_line());
    let ghost head = seq!["Available audio sinks:"@, ""@, list_header(), "  "@ + dashes(86)];
    assert(r@.map_values(|l: String| l@) =~= head);
    let mut i: usize = 0;
    while i < sinks.len()
        invariant
            i <= sinks@.len(),
            r@.map_values(|l: String| l@) == head + sinks_view(sinks@).subrange(0, i as int).map_values(
                |s: SinkView| sink_row(s),
            ),
        decreases sinks@.len() - i,
    {
        let ghost before = r@.map_values(|l: String| l@);
        r.push(row_line(&sinks[i]));
        assert(r@.map_values(|l: String| l@) =~= before.push(sink_row(sinks@[i as int]@)));
        assert(sinks_view(sinks@).subrange(0, i + 1).map_values(|s: SinkView| sink_row(s))
            =~= sinks_view(sinks@).subrange(0, i as int).map_values(|s: SinkView| sink_row(s)).push(
            sink_row(sinks@[i as int]@),
        ));
        assert(r@.map_values(|l: String| l@) =~= head + sinks_view(sinks@).subrange(0, i + 1).map_values(
            |s: SinkView| sink_row(s),
        ));
        i = i + 1;
    }
    r.push(text_line(""));
    r.push(text_line("Usage:"));
    r.push(text_line("  pw-merger <ID_A> <ID_B>                  # merge two sinks"));
    r.push(text_line("  pw-merger <ID_A> <ID_B> <ID_C>           # merge three sinks"));
    r.push(text_line("  pw-merger -o \"My Speakers\" 55 61        # with custom name"));
    assert(sinks_view(sinks@).subrange(0, i as int) =~= sinks_view(sinks@));
    assert(r@.map_values(|l: String| l@) =~= sink_list_spec(sinks_view(sinks@)));
    r
}

} // verus!
