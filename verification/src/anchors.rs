//! The anchor visitor: a map from anchor names to the anchored nodes, in insertion order.
use crate::yaml::{alias_free, node_copy, node_view, yaml_copy, yaml_view, Node, NodeV, Yaml, YamlV};
use ritelinked::LinkedHashMap;
use vstd::prelude::*;

verus! {

/// The insertion-ordered hash map of the `ritelinked` crate.
#[verifier::external_type_specification]
#[verifier::external_body]
#[verifier::reject_recursive_types(K)]
#[verifier::reject_recursive_types(V)]
#[verifier::reject_recursive_types(S)]
pub struct ExLinkedHashMap<K, V, S>(LinkedHashMap<K, V, S>);

/// The default hasher of `ritelinked`.
#[verifier::external_type_specification]
#[verifier::external_body]
pub struct ExDefaultHashBuilder(ritelinked::DefaultHashBuilder);

/// Anchor visitor: the anchored nodes by anchor name, in insertion order.
pub type Anchors = LinkedHashMap<String, Node>;

/// What an anchor visitor holds: its entries in iteration order, each the anchor name and
/// the node.
pub uninterp spec fn anchor_entries(m: Anchors) -> Seq<(Seq<char>, Node)>;

/// Entries by the values of their nodes.
pub open spec fn entries_view(e: Seq<(Seq<char>, Node)>) -> Seq<(Seq<char>, NodeV)> {
    e.map_values(|p: (Seq<char>, Node)| (p.0, node_view(p.1)))
}

/// The entries of a visitor, by the values of their nodes.
pub open spec fn anchors_view(m: Anchors) -> Seq<(Seq<char>, NodeV)> {
    entries_view(anchor_entries(m))
}

/// Owned entries by their values.
pub open spec fn pairs_view(v: Seq<(String, Node)>) -> Seq<(Seq<char>, NodeV)> {
    v.map_values(|p: (String, Node)| (p.0@, node_view(p.1)))
}

/// Index of the entry with key `k`.
pub open spec fn key_index<V>(m: Seq<(Seq<char>, V)>, k: Seq<char>) -> Option<int>
    decreases m.len(),
{
    if m.len() == 0 {
        None
    } else if m.last().0 == k {
        Some(m.len() - 1)
    } else {
        key_index(m.drop_last(), k)
    }
}

/// The node anchored under `k`, if any.
pub open spec fn anchored(m: Anchors, k: Seq<char>) -> Option<Node> {
    match key_index(anchor_entries(m), k) {
        Some(j) => Some(anchor_entries(m)[j].1),
        None => None,
    }
}

/// The last entry with key `k` is found at the back.
pub open spec fn key_index_last<V>(m: Seq<(Seq<char>, V)>, k: Seq<char>) -> bool {
    m.len() > 0 && m.last().0 == k ==> key_index(m, k) == Some(m.len() - 1)
}

/// The entries after inserting `v` under `k`: an entry with the same key is removed, and the
/// new entry goes to the back.
pub open spec fn model_insert<V>(m: Seq<(Seq<char>, V)>, k: Seq<char>, v: V) -> Seq<(Seq<char>, V)> {
    match key_index(m, k) {
        Some(j) => m.remove(j).push((k, v)),
        None => m.push((k, v)),
    }
}

/// The entries after inserting each entry of `s` in turn.
pub open spec fn insert_all<V>(e: Seq<(Seq<char>, V)>, s: Seq<(Seq<char>, V)>) -> Seq<(Seq<char>, V)>
    decreases s.len(),
{
    if s.len() == 0 {
        e
    } else {
        model_insert(insert_all(e, s.drop_last()), s.last().0, s.last().1)
    }
}

/// No two entries share a key.
pub open spec fn keys_distinct<V>(m: Seq<(Seq<char>, V)>) -> bool {
    forall|i: int, j: int| 0 <= i < j < m.len() ==> m[i].0 != m[j].0
}

/// Creates an empty visitor with `LinkedHashMap::new`.
#[verifier::external_body]
pub(crate) fn anchors_new() -> (m: Anchors)
    ensures
        anchor_entries(m) == Seq::<(Seq<char>, Node)>::empty(),
{
    LinkedHashMap::new()
}

/// Inserts with `LinkedHashMap::insert`, which moves an entry with the same key to the back
/// and replaces its value, or adds the entry at the back.
#[verifier::external_body]
pub(crate) fn anchors_insert(m: &mut Anchors, k: String, v: Node)
    ensures
        anchor_entries(*final(m)) == model_insert(anchor_entries(*old(m)), k@, v),
{
    m.insert(k, v);
}

/// Looks up a key with `LinkedHashMap::get`.
#[verifier::external_body]
pub(crate) fn anchors_get<'a>(m: &'a Anchors, k: &str) -> (r: Option<&'a Node>)
    ensures
        match key_index(anchor_entries(*m), k@) {
            Some(j) => r == Some(&anchor_entries(*m)[j].1),
            None => r is None,
        },
{
    m.get(k)
}

/// The entries in iteration order, through `LinkedHashMap::iter`; a hash map holds each key
/// once.
#[verifier::external_body]
pub(crate) fn anchors_iter<'a>(m: &'a Anchors) -> (v: Vec<(&'a String, &'a Node)>)
    ensures
        v@.len() == anchor_entries(*m).len(),
        forall|i: int| #![trigger v@[i]] 0 <= i < v@.len() ==> v@[i].0@ == anchor_entries(*m)[i].0
            && *v@[i].1 == anchor_entries(*m)[i].1,
        forall|i: int, j: int| 0 <= i < j < v@.len() ==> v@[i].0@ != v@[j].0@,
{
    m.iter().collect()
}

/// The entries of a visitor, each cloned.
pub fn anchors_entries(m: &Anchors) -> (v: Vec<(String, Node)>)
    ensures
        pairs_view(v@) == anchors_view(*m),
        keys_distinct(pairs_view(v@)),
{
    let refs = anchors_iter(m);
    let mut v: Vec<(String, Node)> = Vec::new();
    let mut i: usize = 0;
    while i < refs.len()
        invariant
            i <= refs@.len(),
            refs@.len() == anchor_entries(*m).len(),
            forall|k: int| #![trigger refs@[k]] 0 <= k < refs@.len() ==> refs@[k].0@ == anchor_entries(*m)[k].0
                && *refs@[k].1 == anchor_entries(*m)[k].1,
            pairs_view(v@) == anchors_view(*m).take(i as int),
        decreases refs@.len() - i,
    {
        let (k, n) = refs[i];
        let ghost before = v@;
        let c = node_copy(n);
        v.push((k.clone(), c));
        proof {
            assert(refs@[i as int].0@ == anchor_entries(*m)[i as int].0);
            assert(node_view(c) == node_view(anchor_entries(*m)[i as int].1));
            assert(pairs_view(v@) =~= pairs_view(before).push((anchor_entries(*m)[i as int].0, node_view(c))));
            assert(anchors_view(*m).take(i + 1) =~= anchors_view(*m).take(i as int).push(anchors_view(*m)[i as int]));
        }
        i = i + 1;
    }
    proof {
        assert(anchors_view(*m).take(refs@.len() as int) =~= anchors_view(*m));
        assert forall|a: int, b: int| 0 <= a < b < pairs_view(v@).len() implies pairs_view(v@)[a].0 != pairs_view(v@)[b].0 by {
            assert(refs@[a].0@ == anchor_entries(*m)[a].0);
            assert(refs@[b].0@ == anchor_entries(*m)[b].0);
        }
    }
    v
}

/// Where `key_index` finds a key, the entry has it; where it finds none, no entry has it.
pub proof fn lemma_key_index<V>(m: Seq<(Seq<char>, V)>, k: Seq<char>)
    ensures
        key_index(m, k) matches Some(j) ==> 0 <= j < m.len() && m[j].0 == k,
        key_index(m, k) is None ==> forall|i: int| 0 <= i < m.len() ==> m[i].0 != k,
    decreases m.len(),
{
    if m.len() > 0 {
        lemma_key_index(m.drop_last(), k);
        if m.last().0 != k {
            assert forall|i: int| 0 <= i < m.len() - 1 implies m[i] == m.drop_last()[i] by {}
        }
    }
}

/// The index of a key depends on the keys alone.
proof fn lemma_key_index_view(e: Seq<(Seq<char>, Node)>, k: Seq<char>)
    ensures
        key_index(entries_view(e), k) == key_index(e, k),
    decreases e.len(),
{
    if e.len() > 0 {
        assert(entries_view(e).drop_last() =~= entries_view(e.drop_last()));
        lemma_key_index_view(e.drop_last(), k);
    }
}

/// Inserting commutes with taking the values.
proof fn lemma_insert_view(e: Seq<(Seq<char>, Node)>, k: Seq<char>, v: Node)
    ensures
        entries_view(model_insert(e, k, v)) == model_insert(entries_view(e), k, node_view(v)),
{
    lemma_key_index_view(e, k);
    lemma_key_index(e, k);
    match key_index(e, k) {
        Some(j) => {
            assert(entries_view(e.remove(j).push((k, v))) =~= entries_view(e).remove(j).push((k, node_view(v))));
        },
        None => {
            assert(entries_view(e.push((k, v))) =~= entries_view(e).push((k, node_view(v))));
        },
    }
}

/// Inserting keeps the keys distinct, and the key is then there.
pub proof fn lemma_insert_distinct<V>(m: Seq<(Seq<char>, V)>, k: Seq<char>, v: V)
    requires
        keys_distinct(m),
    ensures
        keys_distinct(model_insert(m, k, v)),
        key_index(model_insert(m, k, v), k) == Some(model_insert(m, k, v).len() - 1),
{
    lemma_key_index(m, k);
    let r = model_insert(m, k, v);
    assert(r.last().0 == k);
}

/// Inserting keeps a property that all values and the new value have.
pub proof fn lemma_insert_values<V>(m: Seq<(Seq<char>, V)>, k: Seq<char>, v: V, p: spec_fn(V) -> bool)
    requires
        forall|i: int| 0 <= i < m.len() ==> p(#[trigger] m[i].1),
        p(v),
    ensures
        forall|i: int| 0 <= i < model_insert(m, k, v).len() ==> p(#[trigger] model_insert(m, k, v)[i].1),
{
    lemma_key_index(m, k);
    let r = model_insert(m, k, v);
    match key_index(m, k) {
        Some(j) => {
            assert forall|i: int| 0 <= i < r.len() implies p(#[trigger] r[i].1) by {
                if i < j {
                    assert(r[i] == m[i]);
                } else if i < r.len() - 1 {
                    assert(r[i] == m[i + 1]);
                }
            }
        },
        None => {
            assert forall|i: int| 0 <= i < r.len() implies p(#[trigger] r[i].1) by {
                if i < m.len() {
                    assert(r[i] == m[i]);
                }
            }
        },
    }
}

/// Inserting a key that is not there appends the entry.
proof fn lemma_insert_new<V>(m: Seq<(Seq<char>, V)>, k: Seq<char>, v: V)
    requires
        forall|i: int| 0 <= i < m.len() ==> m[i].0 != k,
    ensures
        model_insert(m, k, v) == m.push((k, v)),
{
    lemma_key_index(m, k);
}

/// Inserting two runs of entries is inserting the one after the other.
proof fn lemma_insert_all_concat<V>(e: Seq<(Seq<char>, V)>, a: Seq<(Seq<char>, V)>, b: Seq<(Seq<char>, V)>)
    ensures
        insert_all(e, a + b) == insert_all(insert_all(e, a), b),
    decreases b.len(),
{
    if b.len() == 0 {
        assert(a + b =~= a);
    } else {
        assert((a + b).drop_last() =~= a + b.drop_last());
        lemma_insert_all_concat(e, a, b.drop_last());
    }
}

/// Inserting a run of entries keeps the keys distinct.
pub proof fn lemma_insert_all_distinct<V>(e: Seq<(Seq<char>, V)>, s: Seq<(Seq<char>, V)>)
    requires
        keys_distinct(e),
    ensures
        keys_distinct(insert_all(e, s)),
    decreases s.len(),
{
    if s.len() > 0 {
        lemma_insert_all_distinct(e, s.drop_last());
        lemma_insert_distinct(insert_all(e, s.drop_last()), s.last().0, s.last().1);
    }
}

/// The anchored nodes of a node in document order (the node first, then its items, a
/// map's keys before their values), each with its anchor.
pub open spec fn visit_v(n: NodeV) -> Seq<(Seq<char>, NodeV)>
    decreases n,
{
    let own = if n.anchor.len() > 0 {
        seq![(n.anchor, n)]
    } else {
        Seq::empty()
    };
    match n.yaml {
        YamlV::Array(x) => own + visit_all(x),
        YamlV::Mapping(x) => own + visit_pairs(x),
        _ => own,
    }
}

/// The anchored nodes of a run of nodes.
pub open spec fn visit_all(x: Seq<NodeV>) -> Seq<(Seq<char>, NodeV)>
    decreases x,
{
    if x.len() == 0 {
        Seq::empty()
    } else {
        visit_all(x.drop_last()) + visit_v(x.last())
    }
}

/// The anchored nodes of a run of map entries.
pub open spec fn visit_pairs(x: Seq<(NodeV, NodeV)>) -> Seq<(Seq<char>, NodeV)>
    decreases x,
{
    if x.len() == 0 {
        Seq::empty()
    } else {
        visit_pairs(x.drop_last()) + visit_v(x.last().0) + visit_v(x.last().1)
    }
}

/// Inserts the anchored nodes of `n` into the visitor, in document order.
fn visit_into(n: &Node, m: &mut Anchors)
    ensures
        anchors_view(*final(m)) == insert_all(anchors_view(*old(m)), visit_v(node_view(*n))),
    decreases n,
{
    let ghost nv = node_view(*n);
    let ghost own = if nv.anchor.len() > 0 {
        seq![(nv.anchor, nv)]
    } else {
        Seq::empty()
    };
    if !n.anchor.as_str().is_empty() {
        let c = node_copy(n);
        proof {
            lemma_insert_view(anchor_entries(*m), n.anchor@, c);
        }
        anchors_insert(m, n.anchor.clone(), c);
        proof {
            assert(own.drop_last() =~= Seq::<(Seq<char>, NodeV)>::empty());
            assert(insert_all(anchors_view(*old(m)), own.drop_last()) == anchors_view(*old(m)));
            assert(own.last() == (n.anchor@, node_view(c)));
        }
    } else {
        proof {
            assert(n.anchor@.len() == 0);
            assert(own.len() == 0);
        }
    }
    assert(anchors_view(*m) == insert_all(anchors_view(*old(m)), own));
    match &n.yaml {
        Yaml::Array(x) => {
            let ghost xv = yaml_view(n.yaml)->Array_0;
            let mut i: usize = 0;
            while i < x.len()
                invariant
                    i <= x@.len(),
                    n.yaml == Yaml::Array(*x),
                    xv == yaml_view(n.yaml)->Array_0,
                    xv.len() == x@.len(),
                    anchors_view(*m) == insert_all(anchors_view(*old(m)), own + visit_all(xv.take(i as int))),
                decreases x@.len() - i,
            {
                assert(decreases_to!(n => n.yaml));
                assert(decreases_to!(n.yaml => n.yaml->Array_0));
                assert(decreases_to!(*x => x@));
                assert(decreases_to!(x@ => x@[i as int]));
                proof {
                    lemma_insert_all_concat(anchors_view(*old(m)), own + visit_all(xv.take(i as int)), visit_v(xv[i as int]));
                    assert(xv.take(i + 1).drop_last() =~= xv.take(i as int));
                    assert(xv[i as int] == node_view(x@[i as int]));
                    assert(own + visit_all(xv.take(i + 1)) =~= own + visit_all(xv.take(i as int)) + visit_v(xv[i as int]));
                }
                visit_into(&x[i], m);
                i = i + 1;
            }
            proof {
                assert(xv.take(x@.len() as int) =~= xv);
            }
        },
        Yaml::Mapping(x) => {
            let ghost xv = yaml_view(n.yaml)->Mapping_0;
            let mut i: usize = 0;
            while i < x.len()
                invariant
                    i <= x@.len(),
                    n.yaml == Yaml::Mapping(*x),
                    xv == yaml_view(n.yaml)->Mapping_0,
                    xv.len() == x@.len(),
                    anchors_view(*m) == insert_all(anchors_view(*old(m)), own + visit_pairs(xv.take(i as int))),
                decreases x@.len() - i,
            {
                assert(decreases_to!(n => n.yaml));
                assert(decreases_to!(n.yaml => n.yaml->Mapping_0));
                assert(decreases_to!(*x => x@));
                assert(decreases_to!(x@ => x@[i as int]));
                assert(decreases_to!(x@[i as int] => x@[i as int].0));
                assert(decreases_to!(x@[i as int] => x@[i as int].1));
                let ghost before = anchors_view(*m);
                proof {
                    assert(xv[i as int] == (node_view(x@[i as int].0), node_view(x@[i as int].1)));
                }
                visit_into(&x[i].0, m);
                visit_into(&x[i].1, m);
                proof {
                    let a = own + visit_pairs(xv.take(i as int));
                    lemma_insert_all_concat(anchors_view(*old(m)), a, visit_v(xv[i as int].0));
                    lemma_insert_all_concat(anchors_view(*old(m)), a + visit_v(xv[i as int].0), visit_v(xv[i as int].1));
                    assert(xv.take(i + 1).drop_last() =~= xv.take(i as int));
                    assert(own + visit_pairs(xv.take(i + 1)) =~= a + visit_v(xv[i as int].0) + visit_v(xv[i as int].1));
                }
                i = i + 1;
            }
            proof {
                assert(xv.take(x@.len() as int) =~= xv);
            }
        },
        _ => {
            proof {
                assert(own + Seq::<(Seq<char>, NodeV)>::empty() =~= own);
            }
        },
    }
}

/// The child `i` of a node: item `i` of a sequence; of a map, the key of entry `i / 2` for
/// even `i` and its value for odd `i`.
pub open spec fn child_at(n: NodeV, i: int) -> Option<NodeV> {
    match n.yaml {
        YamlV::Array(x) => if 0 <= i < x.len() { Some(x[i]) } else { None },
        YamlV::Mapping(x) => if 0 <= i < 2 * x.len() {
            Some(if i % 2 == 0 { x[i / 2].0 } else { x[i / 2].1 })
        } else {
            None
        },
        _ => None,
    }
}

/// The node reached from `n` by following the children in `path`, if there is one.
pub open spec fn node_at(n: NodeV, path: Seq<int>) -> Option<NodeV>
    decreases path.len(),
{
    if path.len() == 0 {
        Some(n)
    } else {
        match child_at(n, path[0]) {
            Some(c) => node_at(c, path.drop_first()),
            None => None,
        }
    }
}

/// An entry with key `k` exists where `key_index` finds one.
proof fn lemma_key_present<V>(m: Seq<(Seq<char>, V)>, k: Seq<char>, j: int)
    requires
        0 <= j < m.len(),
        m[j].0 == k,
    ensures
        key_index(m, k) is Some,
{
    lemma_key_index(m, k);
}

/// Inserting entries keeps every key that was there and adds the keys inserted.
proof fn lemma_insert_all_has_key<V>(e: Seq<(Seq<char>, V)>, s: Seq<(Seq<char>, V)>, k: Seq<char>, j: int)
    requires
        0 <= j < s.len(),
        s[j].0 == k,
    ensures
        key_index(insert_all(e, s), k) is Some,
    decreases s.len(),
{
    let m = insert_all(e, s.drop_last());
    let k2 = s.last().0;
    let v2 = s.last().1;
    if j == s.len() - 1 {
        let r = model_insert(m, k2, v2);
        lemma_key_present(r, k, r.len() - 1);
    } else {
        assert(s.drop_last()[j] == s[j]);
        lemma_insert_all_has_key(e, s.drop_last(), k, j);
        lemma_key_index(m, k);
        let i = key_index(m, k)->0;
        match key_index(m, k2) {
            Some(j2) => {
                lemma_key_index(m, k2);
                if k == k2 {
                    let r = m.remove(j2).push((k2, v2));
                    lemma_key_present(r, k, r.len() - 1);
                } else {
                    let r = m.remove(j2).push((k2, v2));
                    let i2 = if i < j2 { i } else { i - 1 };
                    assert(r[i2] == m[i]);
                    lemma_key_present(r, k, i2);
                }
            },
            None => {
                let r = m.push((k2, v2));
                assert(r[i] == m[i]);
                lemma_key_present(r, k, i);
            },
        }
    }
}

/// The anchored nodes of a run of nodes hold those of each node.
proof fn lemma_visit_all_holds(x: Seq<NodeV>, i: int, j: int)
    requires
        0 <= i < x.len(),
        0 <= j < visit_v(x[i]).len(),
    ensures
        exists|k: int| 0 <= k < visit_all(x).len() && visit_all(x)[k] == visit_v(x[i])[j],
    decreases x.len(),
{
    let a = visit_all(x.drop_last());
    let b = visit_v(x.last());
    assert(visit_all(x) == a + b);
    if i == x.len() - 1 {
        assert((a + b)[a.len() + j] == b[j]);
    } else {
        assert(x.drop_last()[i] == x[i]);
        lemma_visit_all_holds(x.drop_last(), i, j);
        let k = choose|k: int| 0 <= k < a.len() && a[k] == visit_v(x[i])[j];
        assert((a + b)[k] == a[k]);
    }
}

/// The anchored nodes of a run of map entries hold those of each key and each value.
proof fn lemma_visit_pairs_holds(x: Seq<(NodeV, NodeV)>, i: int, key: bool, j: int)
    requires
        0 <= i < x.len(),
        0 <= j < visit_v(if key { x[i].0 } else { x[i].1 }).len(),
    ensures
        exists|k: int| 0 <= k < visit_pairs(x).len() && visit_pairs(x)[k] == visit_v(if key { x[i].0 } else { x[i].1 })[j],
    decreases x.len(),
{
    let a = visit_pairs(x.drop_last());
    let b = visit_v(x.last().0);
    let c = visit_v(x.last().1);
    assert(visit_pairs(x) == a + b + c);
    if i == x.len() - 1 {
        if key {
            assert((a + b + c)[a.len() + j] == b[j]);
        } else {
            assert((a + b + c)[a.len() + b.len() + j] == c[j]);
        }
    } else {
        assert(x.drop_last()[i] == x[i]);
        lemma_visit_pairs_holds(x.drop_last(), i, key, j);
        let k = choose|k: int| 0 <= k < a.len() && a[k] == visit_v(if key { x[i].0 } else { x[i].1 })[j];
        assert((a + b + c)[k] == a[k]);
    }
}

/// Every anchored node inside `n` is among the anchored nodes of `n`.
proof fn lemma_visit_holds(n: NodeV, path: Seq<int>)
    requires
        node_at(n, path) matches Some(s) && s.anchor.len() > 0,
    ensures
        exists|k: int| 0 <= k < visit_v(n).len() && visit_v(n)[k] == (node_at(n, path)->0.anchor, node_at(n, path)->0),
    decreases path.len(),
{
    let s = node_at(n, path)->0;
    let own = if n.anchor.len() > 0 { seq![(n.anchor, n)] } else { Seq::<(Seq<char>, NodeV)>::empty() };
    if path.len() == 0 {
        match n.yaml {
            YamlV::Array(x) => { assert((own + visit_all(x))[0] == own[0]); },
            YamlV::Mapping(x) => { assert((own + visit_pairs(x))[0] == own[0]); },
            _ => { assert(visit_v(n)[0] == own[0]); },
        }
        assert(s == n);
        assert(visit_v(n)[0] == (s.anchor, s));
        match n.yaml {
            _ => {},
        }
    } else {
        let i = path[0];
        let rest = path.drop_first();
        match n.yaml {
            YamlV::Array(x) => {
                let c = x[i];
                assert(node_at(c, rest) == Some(s));
                lemma_visit_holds(c, rest);
                let j = choose|j: int| 0 <= j < visit_v(c).len() && visit_v(c)[j] == (s.anchor, s);
                lemma_visit_all_holds(x, i, j);
                let k = choose|k: int| 0 <= k < visit_all(x).len() && visit_all(x)[k] == visit_v(x[i])[j];
                assert((own + visit_all(x))[own.len() + k] == visit_all(x)[k]);
                assert(visit_v(n)[own.len() + k] == (s.anchor, s));
            },
            YamlV::Mapping(x) => {
                let key = i % 2 == 0;
                let c = if key { x[i / 2].0 } else { x[i / 2].1 };
                assert(node_at(c, rest) == Some(s));
                lemma_visit_holds(c, rest);
                let j = choose|j: int| 0 <= j < visit_v(c).len() && visit_v(c)[j] == (s.anchor, s);
                lemma_visit_pairs_holds(x, i / 2, key, j);
                let k = choose|k: int| 0 <= k < visit_pairs(x).len() && visit_pairs(x)[k] == visit_v(c)[j];
                assert((own + visit_pairs(x))[own.len() + k] == visit_pairs(x)[k]);
                assert(visit_v(n)[own.len() + k] == (s.anchor, s));
            },
            _ => {},
        }
    }
}

/// Every node inside the data (the data itself, items, keys and values at any depth, of
/// any kind) whose anchor is not empty is found in the visitor under its anchor.
pub proof fn lemma_visit_finds_every_anchor(n: NodeV, path: Seq<int>)
    requires
        node_at(n, path) matches Some(s) && s.anchor.len() > 0,
    ensures
        key_index(insert_all(Seq::empty(), visit_v(n)), node_at(n, path)->0.anchor) is Some,
{
    let s = node_at(n, path)->0;
    lemma_visit_holds(n, path);
    let k = choose|k: int| 0 <= k < visit_v(n).len() && visit_v(n)[k] == (s.anchor, s);
    lemma_insert_all_has_key(Seq::<(Seq<char>, NodeV)>::empty(), visit_v(n), s.anchor, k);
}

/// Creates a visitor by visiting all nodes of the data: each anchored node in document
/// order is inserted under its anchor, so a later node takes the place of an earlier one
/// with the same anchor.
pub fn anchor_visit(n: &Node) -> (m: Anchors)
    ensures
        anchors_view(m) == insert_all(Seq::empty(), visit_v(node_view(*n))),
        keys_distinct(anchors_view(m)),
        forall|path: Seq<int>| #[trigger] node_at(node_view(*n), path) matches Some(s)
            ==> (s.anchor.len() > 0 ==> anchored(m, s.anchor) is Some),
{
    let mut m = anchors_new();
    proof {
        assert(anchors_view(m) =~= Seq::<(Seq<char>, NodeV)>::empty());
    }
    visit_into(n, &mut m);
    proof {
        lemma_insert_all_distinct(Seq::<(Seq<char>, NodeV)>::empty(), visit_v(node_view(*n)));
        assert forall|path: Seq<int>| #[trigger] node_at(node_view(*n), path) is Some && node_at(node_view(*n), path)->0.anchor.len() > 0
            implies anchored(m, node_at(node_view(*n), path)->0.anchor) is Some by {
            lemma_visit_finds_every_anchor(node_view(*n), path);
            lemma_key_index_view(anchor_entries(m), node_at(node_view(*n), path)->0.anchor);
        }
    }
    m
}

/// A node value with other data in place of its own.
pub open spec fn with_yaml(n: NodeV, y: YamlV) -> NodeV {
    NodeV { pos: n.pos, tag: n.tag, anchor: n.anchor, yaml: y }
}

/// The node with each alias replaced by the data of the node anchored under its name in
/// `e` (the alias keeps its own position, tag and anchor); `None` if a name is missing.
pub open spec fn resolve_v(n: NodeV, e: Seq<(Seq<char>, NodeV)>) -> Option<NodeV>
    decreases n,
{
    match n.yaml {
        YamlV::Alias(a) => match key_index(e, a) {
            Some(j) => Some(with_yaml(n, e[j].1.yaml)),
            None => None,
        },
        YamlV::Array(x) => match resolve_all(x, e) {
            Some(y) => Some(with_yaml(n, YamlV::Array(y))),
            None => None,
        },
        YamlV::Mapping(x) => match resolve_pairs(x, e) {
            Some(y) => Some(with_yaml(n, YamlV::Mapping(y))),
            None => None,
        },
        _ => Some(n),
    }
}

/// Each node of a run resolved, as [`resolve_v`] says.
pub open spec fn resolve_all(x: Seq<NodeV>, e: Seq<(Seq<char>, NodeV)>) -> Option<Seq<NodeV>>
    decreases x,
{
    if x.len() == 0 {
        Some(Seq::empty())
    } else {
        match (resolve_all(x.drop_last(), e), resolve_v(x.last(), e)) {
            (Some(a), Some(b)) => Some(a.push(b)),
            _ => None,
        }
    }
}

/// Each key and value of a run of map entries resolved, as [`resolve_v`] says.
pub open spec fn resolve_pairs(x: Seq<(NodeV, NodeV)>, e: Seq<(Seq<char>, NodeV)>) -> Option<
    Seq<(NodeV, NodeV)>,
>
    decreases x,
{
    if x.len() == 0 {
        Some(Seq::empty())
    } else {
        match (resolve_pairs(x.drop_last(), e), resolve_v(x.last().0, e), resolve_v(x.last().1, e)) {
            (Some(a), Some(k), Some(v)) => Some(a.push((k, v))),
            _ => None,
        }
    }
}

impl Node {
    /// Replaces each alias with the data of the node anchored under its name in the
    /// visitor, as [`resolve_v`] says. Returns `None` if an anchor is not found.
    pub fn replace_anchor(&self, anchors: &Anchors) -> (r: Option<Node>)
        ensures
            match resolve_v(node_view(*self), anchors_view(*anchors)) {
                Some(v) => r matches Some(m) && node_view(m) == v,
                None => r is None,
            },
        decreases self,
    {
        let ghost e = anchors_view(*anchors);
        match &self.yaml {
            Yaml::Alias(a) => {
                proof {
                    lemma_key_index_view(anchor_entries(*anchors), a@);
                }
                match anchors_get(anchors, a.as_str()) {
                    Some(n) => {
                        let y = yaml_copy(&n.yaml);
                        let r = Node { pos: self.pos, tag: self.tag.clone(), anchor: self.anchor.clone(), yaml: y };
                        proof {
                            let j = key_index(anchor_entries(*anchors), a@)->0;
                            lemma_key_index(anchor_entries(*anchors), a@);
                            assert(e[j].1 == node_view(anchor_entries(*anchors)[j].1));
                        }
                        Some(r)
                    },
                    None => None,
                }
            },
            Yaml::Array(x) => {
                let ghost xv = yaml_view(self.yaml)->Array_0;
                let mut v: Vec<Node> = Vec::new();
                let mut i: usize = 0;
                while i < x.len()
                    invariant
                        i <= x@.len(),
                        self.yaml == Yaml::Array(*x),
                        xv == yaml_view(self.yaml)->Array_0,
                        xv.len() == x@.len(),
                        e == anchors_view(*anchors),
                        resolve_all(xv.take(i as int), e) matches Some(y) && y.len() == i
                            && forall|k: int| #![trigger y[k]] 0 <= k < i ==> y[k] == node_view(v@[k]),
                        v@.len() == i,
                    decreases x@.len() - i,
                {
                    assert(decreases_to!(self => self.yaml));
                    assert(decreases_to!(self.yaml => self.yaml->Array_0));
                    assert(decreases_to!(*x => x@));
                    assert(decreases_to!(x@ => x@[i as int]));
                    proof {
                        assert(xv.take(i + 1).drop_last() =~= xv.take(i as int));
                        assert(xv[i as int] == node_view(x@[i as int]));
                    }
                    match x[i].replace_anchor(anchors) {
                        Some(m) => {
                            v.push(m);
                        },
                        None => {
                            proof {
                                assert(resolve_all(xv.take(i + 1), e) is None);
                                lemma_resolve_all_none(xv, e, i + 1);
                            }
                            return None;
                        },
                    }
                    i = i + 1;
                }
                let r = Node { pos: self.pos, tag: self.tag.clone(), anchor: self.anchor.clone(), yaml: Yaml::Array(v) };
                proof {
                    assert(xv.take(x@.len() as int) =~= xv);
                    let y = resolve_all(xv, e)->0;
                    assert(yaml_view(r.yaml)->Array_0 =~= y);
                }
                Some(r)
            },
            Yaml::Mapping(x) => {
                let ghost xv = yaml_view(self.yaml)->Mapping_0;
                let mut v: Vec<(Node, Node)> = Vec::new();
                let mut i: usize = 0;
                while i < x.len()
                    invariant
                        i <= x@.len(),
                        self.yaml == Yaml::Mapping(*x),
                        xv == yaml_view(self.yaml)->Mapping_0,
                        xv.len() == x@.len(),
                        e == anchors_view(*anchors),
                        resolve_pairs(xv.take(i as int), e) matches Some(y) && y.len() == i
                            && forall|k: int| #![trigger y[k]] 0 <= k < i ==> y[k] == (node_view(v@[k].0), node_view(v@[k].1)),
                        v@.len() == i,
                    decreases x@.len() - i,
                {
                    assert(decreases_to!(self => self.yaml));
                    assert(decreases_to!(self.yaml => self.yaml->Mapping_0));
                    assert(decreases_to!(*x => x@));
                    assert(decreases_to!(x@ => x@[i as int]));
                    assert(decreases_to!(x@[i as int] => x@[i as int].0));
                    assert(decreases_to!(x@[i as int] => x@[i as int].1));
                    proof {
                        assert(xv.take(i + 1).drop_last() =~= xv.take(i as int));
                        assert(xv[i as int] == (node_view(x@[i as int].0), node_view(x@[i as int].1)));
                    }
                    let k = x[i].0.replace_anchor(anchors);
                    let w = x[i].1.replace_anchor(anchors);
                    match (k, w) {
                        (Some(k), Some(w)) => {
                            v.push((k, w));
                        },
                        _ => {
                            proof {
                                assert(resolve_pairs(xv.take(i + 1), e) is None);
                                lemma_resolve_pairs_none(xv, e, i + 1);
                            }
                            return None;
                        },
                    }
                    i = i + 1;
                }
                let r = Node { pos: self.pos, tag: self.tag.clone(), anchor: self.anchor.clone(), yaml: Yaml::Mapping(v) };
                proof {
                    assert(xv.take(x@.len() as int) =~= xv);
                    let y = resolve_pairs(xv, e)->0;
                    assert(yaml_view(r.yaml)->Mapping_0 =~= y);
                }
                Some(r)
            },
            _ => Some(node_copy(self)),
        }
    }
}

/// A run that fails to resolve from some point on fails as a whole.
proof fn lemma_resolve_all_none(x: Seq<NodeV>, e: Seq<(Seq<char>, NodeV)>, i: int)
    requires
        0 <= i <= x.len(),
        resolve_all(x.take(i), e) is None,
    ensures
        resolve_all(x, e) is None,
    decreases x.len() - i,
{
    if i < x.len() {
        assert(x.take(i + 1).drop_last() =~= x.take(i));
        lemma_resolve_all_none(x, e, i + 1);
    } else {
        assert(x.take(i) =~= x);
    }
}

/// A run of entries that fails to resolve from some point on fails as a whole.
proof fn lemma_resolve_pairs_none(x: Seq<(NodeV, NodeV)>, e: Seq<(Seq<char>, NodeV)>, i: int)
    requires
        0 <= i <= x.len(),
        resolve_pairs(x.take(i), e) is None,
    ensures
        resolve_pairs(x, e) is None,
    decreases x.len() - i,
{
    if i < x.len() {
        assert(x.take(i + 1).drop_last() =~= x.take(i));
        lemma_resolve_pairs_none(x, e, i + 1);
    } else {
        assert(x.take(i) =~= x);
    }
}

/// Each value of the entries `v` resolved against the entries `t`, keys kept; `None` if
/// one fails.
pub open spec fn resolve_entries(v: Seq<(Seq<char>, NodeV)>, t: Seq<(Seq<char>, NodeV)>) -> Option<
    Seq<(Seq<char>, NodeV)>,
>
    decreases v.len(),
{
    if v.len() == 0 {
        Some(Seq::empty())
    } else {
        match (resolve_entries(v.drop_last(), t), resolve_v(v.last().1, t)) {
            (Some(a), Some(b)) => Some(a.push((v.last().0, b))),
            _ => None,
        }
    }
}

/// `k` rounds of self-resolution from the pair of entries `(v, t)`: a round resolves `v`
/// against `t`, then `t` takes the place of `v` and the result the place of `t`. Gives
/// the entries `v` after the last round.
pub open spec fn resolve_rounds(v: Seq<(Seq<char>, NodeV)>, t: Seq<(Seq<char>, NodeV)>, k: nat) -> Option<
    Seq<(Seq<char>, NodeV)>,
>
    decreases k,
{
    if k == 0 {
        Some(v)
    } else {
        match resolve_entries(v, t) {
            Some(r) => resolve_rounds(t, r, (k - 1) as nat),
            None => None,
        }
    }
}

/// Resolving keeps the keys.
proof fn lemma_resolve_entries_keys(v: Seq<(Seq<char>, NodeV)>, t: Seq<(Seq<char>, NodeV)>)
    ensures
        resolve_entries(v, t) matches Some(r) ==> r.len() == v.len() && forall|i: int|
            0 <= i < v.len() ==> #[trigger] r[i].0 == v[i].0,
    decreases v.len(),
{
    if v.len() > 0 {
        lemma_resolve_entries_keys(v.drop_last(), t);
    }
}

/// A visitor with the given entries, whose keys are distinct.
fn anchors_from(v: &Vec<(String, Node)>) -> (m: Anchors)
    requires
        keys_distinct(pairs_view(v@)),
    ensures
        anchors_view(m) == pairs_view(v@),
{
    let mut m = anchors_new();
    let mut i: usize = 0;
    proof {
        assert(anchors_view(m) =~= pairs_view(v@).take(0));
    }
    while i < v.len()
        invariant
            i <= v@.len(),
            keys_distinct(pairs_view(v@)),
            anchors_view(m) == pairs_view(v@).take(i as int),
        decreases v@.len() - i,
    {
        let c = node_copy(&v[i].1);
        proof {
            lemma_insert_view(anchor_entries(m), v@[i as int].0@, c);
            let pv = pairs_view(v@);
            assert forall|k: int| 0 <= k < pv.take(i as int).len() implies pv.take(i as int)[k].0 != v@[i as int].0@ by {
                assert(pv[k].0 != pv[i as int].0);
            }
            lemma_insert_new(pv.take(i as int), v@[i as int].0@, node_view(c));
            assert(pv.take(i + 1) =~= pv.take(i as int).push((v@[i as int].0@, node_view(c))));
        }
        anchors_insert(&mut m, v[i].0.clone(), c);
        i = i + 1;
    }
    proof {
        assert(pairs_view(v@).take(v@.len() as int) =~= pairs_view(v@));
    }
    m
}

/// The values of `v` resolved against the visitor `t`, as [`resolve_entries`] says.
fn resolve_pairs_exec(v: &Vec<(String, Node)>, t: &Anchors) -> (r: Option<Vec<(String, Node)>>)
    ensures
        match resolve_entries(pairs_view(v@), anchors_view(*t)) {
            Some(e) => r matches Some(w) && pairs_view(w@) == e,
            None => r is None,
        },
{
    let ghost vv = pairs_view(v@);
    let ghost tv = anchors_view(*t);
    let mut w: Vec<(String, Node)> = Vec::new();
    let mut i: usize = 0;
    while i < v.len()
        invariant
            i <= v@.len(),
            vv == pairs_view(v@),
            tv == anchors_view(*t),
            resolve_entries(vv.take(i as int), tv) == Some(pairs_view(w@)),
        decreases v@.len() - i,
    {
        proof {
            assert(vv.take(i + 1).drop_last() =~= vv.take(i as int));
            assert(vv.take(i + 1).last() == vv[i as int]);
        }
        match v[i].1.replace_anchor(t) {
            Some(n) => {
                let ghost before = w@;
                w.push((v[i].0.clone(), n));
                proof {
                    assert(pairs_view(w@) =~= pairs_view(before).push((vv[i as int].0, node_view(n))));
                }
            },
            None => {
                proof {
                    lemma_resolve_entries_none(vv, tv, i + 1);
                }
                return None;
            },
        }
        i = i + 1;
    }
    proof {
        assert(vv.take(v@.len() as int) =~= vv);
    }
    Some(w)
}

/// Entries that fail to resolve from some point on fail as a whole.
proof fn lemma_resolve_entries_none(v: Seq<(Seq<char>, NodeV)>, t: Seq<(Seq<char>, NodeV)>, i: int)
    requires
        0 <= i <= v.len(),
        resolve_entries(v.take(i), t) is None,
    ensures
        resolve_entries(v, t) is None,
    decreases v.len() - i,
{
    if i < v.len() {
        assert(v.take(i + 1).drop_last() =~= v.take(i));
        lemma_resolve_entries_none(v, t, i + 1);
    } else {
        assert(v.take(i) =~= v);
    }
}

/// Self-resolves the anchors of the visitor in `2 * deep` rounds, as [`resolve_rounds`]
/// says; returns `None` if an anchor is not found.
pub fn anchor_resolve(visitor: &Anchors, deep: usize) -> (r: Option<Anchors>)
    requires
        deep != 0,
        deep <= usize::MAX / 2,
    ensures
        match resolve_rounds(anchors_view(*visitor), anchors_view(*visitor), (2 * deep) as nat) {
            Some(e) => r matches Some(m) && anchors_view(m) == e,
            None => r is None,
        },
{
    let ghost v0 = anchors_view(*visitor);
    let total: usize = deep * 2;
    let mut tmp: Vec<(String, Node)> = anchors_entries(visitor);
    let mut cur: Vec<(String, Node)> = anchors_entries(visitor);
    let mut k: usize = 0;
    while k < total
        invariant
            k <= total,
            total == 2 * deep,
            v0 == anchors_view(*visitor),
            resolve_rounds(pairs_view(cur@), pairs_view(tmp@), (total - k) as nat) == resolve_rounds(v0, v0, total as nat),
            pairs_view(cur@).len() == v0.len(),
            pairs_view(tmp@).len() == v0.len(),
            keys_distinct(v0),
            forall|i: int| 0 <= i < v0.len() ==> #[trigger] pairs_view(cur@)[i].0 == v0[i].0,
            forall|i: int| 0 <= i < v0.len() ==> #[trigger] pairs_view(tmp@)[i].0 == v0[i].0,
        decreases total - k,
    {
        proof {
            assert forall|i: int, j: int| 0 <= i < j < pairs_view(tmp@).len() implies pairs_view(tmp@)[i].0 != pairs_view(tmp@)[j].0 by {
                assert(pairs_view(tmp@)[i].0 == v0[i].0);
                assert(pairs_view(tmp@)[j].0 == v0[j].0);
            }
        }
        let t = anchors_from(&tmp);
        match resolve_pairs_exec(&cur, &t) {
            Some(w) => {
                proof {
                    lemma_resolve_entries_keys(pairs_view(cur@), pairs_view(tmp@));
                    assert forall|i: int| 0 <= i < v0.len() implies #[trigger] pairs_view(w@)[i].0 == v0[i].0 by {
                        assert(pairs_view(cur@)[i].0 == v0[i].0);
                    }
                }
                cur = tmp;
                tmp = w;
            },
            None => {
                proof {
                    assert(resolve_rounds(pairs_view(cur@), pairs_view(tmp@), (total - k) as nat) is None);
                }
                return None;
            },
        }
        k = k + 1;
    }
    proof {
        assert forall|i: int, j: int| 0 <= i < j < pairs_view(cur@).len() implies pairs_view(cur@)[i].0 != pairs_view(cur@)[j].0 by {
            assert(pairs_view(cur@)[i].0 == v0[i].0);
            assert(pairs_view(cur@)[j].0 == v0[j].0);
        }
    }
    Some(anchors_from(&cur))
}

/// A node without aliases resolves to itself.
pub proof fn lemma_resolve_alias_free(n: NodeV, e: Seq<(Seq<char>, NodeV)>)
    requires
        alias_free(n.yaml),
    ensures
        resolve_v(n, e) == Some(n),
    decreases n,
{
    match n.yaml {
        YamlV::Array(x) => {
            lemma_resolve_all_alias_free(x, e);
        },
        YamlV::Mapping(x) => {
            lemma_resolve_pairs_alias_free(x, e);
        },
        _ => {},
    }
}

/// A run of nodes without aliases resolves to itself.
proof fn lemma_resolve_all_alias_free(x: Seq<NodeV>, e: Seq<(Seq<char>, NodeV)>)
    requires
        forall|i: int| #![trigger x[i]] 0 <= i < x.len() ==> alias_free(x[i].yaml),
    ensures
        resolve_all(x, e) == Some(x),
    decreases x,
{
    if x.len() > 0 {
        lemma_resolve_all_alias_free(x.drop_last(), e);
        assert(alias_free(x[x.len() - 1].yaml));
        lemma_resolve_alias_free(x.last(), e);
        assert(x.drop_last().push(x.last()) =~= x);
    }
}

/// A run of map entries without aliases resolves to itself.
proof fn lemma_resolve_pairs_alias_free(x: Seq<(NodeV, NodeV)>, e: Seq<(Seq<char>, NodeV)>)
    requires
        forall|i: int| #![trigger x[i]] 0 <= i < x.len() ==> alias_free(x[i].0.yaml) && alias_free(x[i].1.yaml),
    ensures
        resolve_pairs(x, e) == Some(x),
    decreases x,
{
    if x.len() > 0 {
        lemma_resolve_pairs_alias_free(x.drop_last(), e);
        assert(alias_free(x[x.len() - 1].0.yaml) && alias_free(x[x.len() - 1].1.yaml));
        lemma_resolve_alias_free(x.last().0, e);
        lemma_resolve_alias_free(x.last().1, e);
        assert(x.drop_last().push(x.last()) =~= x);
    }
}

/// Entries whose nodes hold no alias resolve to themselves.
proof fn lemma_resolve_entries_alias_free(v: Seq<(Seq<char>, NodeV)>, t: Seq<(Seq<char>, NodeV)>)
    requires
        forall|i: int| #![trigger v[i]] 0 <= i < v.len() ==> alias_free(v[i].1.yaml),
    ensures
        resolve_entries(v, t) == Some(v),
    decreases v.len(),
{
    if v.len() > 0 {
        lemma_resolve_entries_alias_free(v.drop_last(), t);
        assert(alias_free(v[v.len() - 1].1.yaml));
        lemma_resolve_alias_free(v.last().1, t);
        assert(v.drop_last().push((v.last().0, v.last().1)) =~= v);
    }
}

/// Replacing the aliases of a node that has none gives the node back, whatever the
/// visitor; and self-resolving a visitor whose nodes hold no alias gives it back, in any
/// number of rounds.
pub proof fn lemma_resolve_identity(n: Node, m: Anchors, k: nat)
    requires
        alias_free(yaml_view(n.yaml)),
        forall|i: int| #![trigger anchors_view(m)[i]] 0 <= i < anchors_view(m).len() ==> alias_free(anchors_view(m)[i].1.yaml),
    ensures
        resolve_v(node_view(n), anchors_view(m)) == Some(node_view(n)),
        resolve_rounds(anchors_view(m), anchors_view(m), k) == Some(anchors_view(m)),
    decreases k,
{
    lemma_resolve_alias_free(node_view(n), anchors_view(m));
    lemma_resolve_entries_alias_free(anchors_view(m), anchors_view(m));
    if k > 0 {
        lemma_resolve_identity(n, m, (k - 1) as nat);
    }
}

} // verus!
