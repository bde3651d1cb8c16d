//! Maps keyed by global id whose entries carry their own id: listing the
//! ids, and picking entries id by id.
use std::collections::HashMap;
use vstd::prelude::*;

verus! {

broadcast use vstd::std_specs::hash::group_hash_axioms;

/// The keys of `m`, each once, in the order in which the map is walked.
pub fn keys_of<V>(m: &HashMap<u32, V>) -> (r: Vec<u32>)
    ensures
        r@.to_set() == m@.dom(),
        r@.no_duplicates(),
{
    let mut r: Vec<u32> = Vec::new();
    for k in it: m.keys()
        invariant
            r@ == it.seq().take(it.index()).unref(),
            it.seq().unref().to_set() == m@.dom(),
            it.seq().unref().no_duplicates(),
            it.index() == it.seq().len() ==> r@.to_set() == m@.dom() && r@.no_duplicates(),
    {
        let ghost before = r@;
        r.push(*k);
        assert(r@ =~= it.seq().take(it.index() + 1).unref()) by {
            assert(it.seq().take(it.index() + 1).unref() =~= before.push(*k));
        }
        assert(it.seq().take(it.seq().len() as int) =~= it.seq());
    }
    r
}

/// The entries of `m` under `keys`, in that order, that `keep` accepts.
pub open spec fn picked<X>(m: Map<u32, X>, keys: Seq<u32>, keep: spec_fn(X) -> bool) -> Seq<X>
    decreases keys.len(),
{
    if keys.len() == 0 {
        Seq::empty()
    } else {
        let rest = picked(m, keys.drop_last(), keep);
        if keep(m[keys.last()]) {
            rest.push(m[keys.last()])
        } else {
            rest
        }
    }
}

/// The entries of `m` that sit under their own id and that `keep` accepts.
pub open spec fn kept_entries<X>(m: Map<u32, X>, id_of: spec_fn(X) -> u32, keep: spec_fn(X) -> bool) -> Set<X> {
    Set::new(|x: X| m.contains_key(id_of(x)) && m[id_of(x)] == x && keep(x))
}

/// Picking along keys of `m`, each entry of which carries its key, gives each
/// accepted entry under those keys once.
proof fn lemma_picked_contains<X>(
    m: Map<u32, X>,
    id_of: spec_fn(X) -> u32,
    keys: Seq<u32>,
    keep: spec_fn(X) -> bool,
)
    requires
        forall|i: int| 0 <= i < keys.len() ==> m.contains_key(#[trigger] keys[i]) && id_of(m[keys[i]]) == keys[i],
        keys.no_duplicates(),
    ensures
        forall|x: X|
            #[trigger] picked(m, keys, keep).contains(x) <==> (keys.contains(id_of(x)) && m.contains_key(id_of(x))
                && m[id_of(x)] == x && keep(x)),
        picked(m, keys, keep).no_duplicates(),
    decreases keys.len(),
{
    if keys.len() > 0 {
        let front = keys.drop_last();
        let k = keys.last();
        assert forall|i: int| 0 <= i < front.len() implies m.contains_key(#[trigger] front[i]) && id_of(m[front[i]])
            == front[i] by {
            assert(front[i] == keys[i]);
        }
        assert(front.no_duplicates()) by {
            assert forall|i: int, j: int| 0 <= i < front.len() && 0 <= j < front.len() && i != j implies front[i]
                != front[j] by {
                assert(front[i] == keys[i] && front[j] == keys[j]);
            }
        }
        lemma_picked_contains(m, id_of, front, keep);
        let rest = picked(m, front, keep);
        assert(m.contains_key(keys[keys.len() - 1]));
        assert forall|x: X| #[trigger]
            picked(m, keys, keep).contains(x) <==> (keys.contains(id_of(x)) && m.contains_key(id_of(x)) && m[id_of(x)]
                == x && keep(x)) by {
            if keys.contains(id_of(x)) && !front.contains(id_of(x)) {
                let i = choose|i: int| 0 <= i < keys.len() && keys[i] == id_of(x);
                if i < keys.len() - 1 {
                    assert(front[i] == keys[i]);
                }
            }
            if front.contains(id_of(x)) {
                let i = choose|i: int| 0 <= i < front.len() && front[i] == id_of(x);
                assert(keys[i] == front[i]);
            }
            if id_of(x) == k {
                assert(keys[keys.len() - 1] == k);
            }
            if keep(m[k]) && x == m[k] {
                assert(picked(m, keys, keep) == rest.push(m[k]));
                assert(picked(m, keys, keep)[rest.len() as int] == x);
            }
            if picked(m, keys, keep).contains(x) && !rest.contains(x) {
                let j = choose|j: int| 0 <= j < picked(m, keys, keep).len() && picked(m, keys, keep)[j] == x;
                if j < rest.len() {
                    assert(rest[j] == x);
                }
            }
            if rest.contains(x) && keep(m[k]) {
                let j = choose|j: int| 0 <= j < rest.len() && rest[j] == x;
                assert(picked(m, keys, keep)[j] == x);
            }
        }
        if keep(m[k]) {
            assert(!front.contains(k)) by {
                if front.contains(k) {
                    let i = choose|i: int| 0 <= i < front.len() && front[i] == k;
                    assert(keys[i] == keys[keys.len() - 1]);
                }
            }
            assert(!rest.contains(m[k]));
        }
    }
}

/// Picking along all the keys of `m`, each entry of which carries its key,
/// gives each accepted entry of `m` once.
pub proof fn lemma_picked_all<X>(m: Map<u32, X>, id_of: spec_fn(X) -> u32, keys: Seq<u32>, keep: spec_fn(X) -> bool)
    requires
        keys.to_set() == m.dom(),
        keys.no_duplicates(),
        forall|k: u32| #[trigger] m.contains_key(k) ==> id_of(m[k]) == k,
    ensures
        picked(m, keys, keep).to_set() == kept_entries(m, id_of, keep),
        picked(m, keys, keep).no_duplicates(),
{
    assert forall|i: int| 0 <= i < keys.len() implies m.contains_key(#[trigger] keys[i]) && id_of(m[keys[i]])
        == keys[i] by {
        assert(keys.to_set().contains(keys[i]));
    }
    lemma_picked_contains(m, id_of, keys, keep);
    assert forall|x: X| #[trigger] picked(m, keys, keep).to_set().contains(x) <==> kept_entries(m, id_of, keep).contains(
        x,
    ) by {
        if m.contains_key(id_of(x)) {
            assert(keys.to_set().contains(id_of(x)));
        }
    }
    assert(picked(m, keys, keep).to_set() =~= kept_entries(m, id_of, keep));
}

/// One more key picks its entry when `keep` accepts it.
pub proof fn lemma_picked_step<X>(m: Map<u32, X>, keys: Seq<u32>, i: int, keep: spec_fn(X) -> bool)
    requires
        0 <= i < keys.len(),
    ensures
        picked(m, keys.take(i + 1), keep) == (if keep(m[keys[i]]) {
            picked(m, keys.take(i), keep).push(m[keys[i]])
        } else {
            picked(m, keys.take(i), keep)
        }),
{
    assert(keys.take(i + 1).drop_last() =~= keys.take(i));
}

} // verus!
