//! What the logic reads of a PipeWire registry global: its id, its kind and
//! its property dictionary, held as plain values.
use vstd::prelude::*;

verus! {

/// The interface type of a registry global, as far as the logic tells them apart.
#[derive(Clone, Copy, Debug, PartialEq, Eq, Structural)]
pub enum ObjectKind {
    /// `PipeWire:Interface:Node`
    Node,
    /// `PipeWire:Interface:Port`
    Port,
    /// Any other interface.
    Other,
}

/// A global announced by the PipeWire registry.
#[derive(Clone, Debug)]
pub struct GlobalInfo {
    /// PipeWire global id.
    pub id: u32,
    /// Interface type.
    pub kind: ObjectKind,
    /// The property dictionary, in its own order, when the global has one.
    pub props: Option<Vec<(String, String)>>,
}

/// A property dictionary as key/value character sequences.
pub type PropsView = Seq<(Seq<char>, Seq<char>)>;

/// The model of a global.
pub struct GlobalView {
    pub id: u32,
    pub kind: ObjectKind,
    pub props: Option<PropsView>,
}

/// The model of a property dictionary.
pub open spec fn props_view(p: Seq<(String, String)>) -> PropsView {
    p.map_values(|e: (String, String)| (e.0@, e.1@))
}

impl View for GlobalInfo {
    type V = GlobalView;

    open spec fn view(&self) -> GlobalView {
        GlobalView {
            id: self.id,
            kind: self.kind,
            props: match self.props {
                Some(p) => Some(props_view(p@)),
                None => None,
            },
        }
    }
}

/// The value of the first entry whose key is `key`, as a dictionary lookup
/// gives it.
pub open spec fn lookup(p: PropsView, key: Seq<char>) -> Option<Seq<char>>
    decreases p.len(),
{
    if p.len() == 0 {
        None
    } else if p[0].0 == key {
        Some(p[0].1)
    } else {
        lookup(p.drop_first(), key)
    }
}

/// A lookup finds the entry at `i` when it is the first with its key.
pub proof fn lemma_lookup_finds(p: PropsView, i: int, key: Seq<char>)
    requires
        0 <= i < p.len(),
        p[i].0 == key,
        forall|j: int| 0 <= j < i ==> (#[trigger] p[j]).0 != key,
    ensures
        lookup(p, key) == Some(p[i].1),
    decreases i,
{
    if i > 0 {
        assert forall|j: int| 0 <= j < i - 1 implies (#[trigger] p.drop_first()[j]).0 != key by {
            assert(p.drop_first()[j] == p[j + 1]);
        }
        lemma_lookup_finds(p.drop_first(), i - 1, key);
    }
}

/// Looks `key` up in a property dictionary: the value of its first entry
/// with that key.
pub fn prop_get<'a>(props: &'a Vec<(String, String)>, key: &str) -> (r: Option<&'a String>)
    ensures
        match r {
            Some(v) => lookup(props_view(props@), key@) == Some(v@),
            None => lookup(props_view(props@), key@) is None,
        },
{
    let k = key.to_owned();
    let mut i: usize = 0;
    assert(props_view(props@).skip(0) =~= props_view(props@));
    while i < props.len()
        invariant
            i <= props@.len(),
            k@ == key@,
            lookup(props_view(props@), key@) == lookup(props_view(props@).skip(i as int), key@),
        decreases props@.len() - i,
    {
        let ghost rest = props_view(props@).skip(i as int);
        assert(rest[0] == (props@[i as int].0@, props@[i as int].1@));
        if props[i].0 == k {
            return Some(&props[i].1);
        }
        assert(rest.drop_first() =~= props_view(props@).skip(i + 1));
        i = i + 1;
    }
    assert(props_view(props@).skip(i as int).len() == 0);
    None
}

} // verus!
