//! The YAML data model: nodes and their data.
use crate::number::{float_text_eq, int_text_eq, float_text_eq_exec, int_text_eq_exec};
use vstd::prelude::*;
use vstd::utf8::encode_utf8;
use vstd::std_specs::cmp::PartialEqSpec;

verus! {

/// The UTF-8 bytes of a string.
pub open spec fn text_bytes(s: String) -> Seq<u8> {
    encode_utf8(s@)
}

/// YAML data types.
#[derive(Debug)]
pub enum Yaml {
    /// Null
    Null,
    /// Boolean
    Bool(bool),
    /// Integer
    Int(String),
    /// Float
    Float(String),
    /// String
    Str(String),
    /// Sequence
    Array(Vec<Node>),
    /// Map
    Mapping(Vec<(Node, Node)>),
    /// Alias (anchor insertion)
    Alias(String),
}

/// A node: the position in the document, the tag, the anchor and the data.
///
/// Comparison ignores the position, the tag and the anchor.
#[derive(Debug)]
pub struct Node {
    /// Document position.
    pub pos: u64,
    /// Tag, empty if not specified.
    pub tag: String,
    /// Anchor, empty if not specified.
    pub anchor: String,
    /// YAML data.
    pub yaml: Yaml,
}

/// The value of YAML data, as the contracts speak of it.
pub enum YamlV {
    /// Null
    Null,
    /// Boolean
    Bool(bool),
    /// Integer, as written
    Int(Seq<char>),
    /// Float, as written
    Float(Seq<char>),
    /// String
    Str(Seq<char>),
    /// Sequence
    Array(Seq<NodeV>),
    /// Map, entries in order
    Mapping(Seq<(NodeV, NodeV)>),
    /// Alias
    Alias(Seq<char>),
}

/// The value of a node, as the contracts speak of it.
pub struct NodeV {
    /// Document position.
    pub pos: u64,
    /// Tag.
    pub tag: Seq<char>,
    /// Anchor.
    pub anchor: Seq<char>,
    /// Data.
    pub yaml: YamlV,
}

/// The equality of YAML data: integers and floats compare by value (NaN equals NaN),
/// sequences item by item, and maps entry by entry in their order, keys and values alike.
pub open spec fn yaml_eq(a: Yaml, b: Yaml) -> bool
    decreases a,
{
    match a {
        Yaml::Null => b is Null,
        Yaml::Bool(x) => b matches Yaml::Bool(y) && x == y,
        Yaml::Int(x) => b matches Yaml::Int(y) && int_text_eq(text_bytes(x), text_bytes(y)),
        Yaml::Float(x) => b matches Yaml::Float(y) && float_text_eq(text_bytes(x), text_bytes(y)),
        Yaml::Str(x) => b matches Yaml::Str(y) && x@ == y@,
        Yaml::Alias(x) => b matches Yaml::Alias(y) && x@ == y@,
        Yaml::Array(x) => b matches Yaml::Array(y) && x@.len() == y@.len() && forall|i: int|
            #![trigger x@[i]] 0 <= i < x@.len() ==> yaml_eq(x@[i].yaml, y@[i].yaml),
        Yaml::Mapping(x) => b matches Yaml::Mapping(y) && x@.len() == y@.len() && forall|i: int|
            #![trigger x@[i]] 0 <= i < x@.len() ==> yaml_eq(x@[i].0.yaml, y@[i].0.yaml) && yaml_eq(x@[i].1.yaml, y@[i].1.yaml),
    }
}

/// Two keys of a map are the same key: equal data whose numbers have the same texts, as an
/// insertion-ordered hash map finds a key, whose hash of the data goes by the texts.
pub open spec fn yaml_key_eq(a: Yaml, b: Yaml) -> bool
    decreases a,
{
    match a {
        Yaml::Null => b is Null,
        Yaml::Bool(x) => b matches Yaml::Bool(y) && x == y,
        Yaml::Int(x) => b matches Yaml::Int(y) && x@ == y@,
        Yaml::Float(x) => b matches Yaml::Float(y) && x@ == y@,
        Yaml::Str(x) => b matches Yaml::Str(y) && x@ == y@,
        Yaml::Alias(x) => b matches Yaml::Alias(y) && x@ == y@,
        Yaml::Array(x) => b matches Yaml::Array(y) && x@.len() == y@.len() && forall|i: int|
            #![trigger x@[i]] 0 <= i < x@.len() ==> yaml_key_eq(x@[i].yaml, y@[i].yaml),
        Yaml::Mapping(x) => b matches Yaml::Mapping(y) && x@.len() == y@.len() && forall|i: int|
            #![trigger x@[i]] 0 <= i < x@.len() ==> yaml_key_eq(x@[i].0.yaml, y@[i].0.yaml) && yaml_key_eq(x@[i].1.yaml, y@[i].1.yaml),
    }
}

/// An empty node value, standing where no node is.
pub open spec fn null_view() -> NodeV {
    NodeV { pos: 0, tag: Seq::empty(), anchor: Seq::empty(), yaml: YamlV::Null }
}

/// The value of YAML data: its strings by their characters, its nodes by their values.
pub open spec fn yaml_view(y: Yaml) -> YamlV
    decreases y,
{
    match y {
        Yaml::Null => YamlV::Null,
        Yaml::Bool(b) => YamlV::Bool(b),
        Yaml::Int(s) => YamlV::Int(s@),
        Yaml::Float(s) => YamlV::Float(s@),
        Yaml::Str(s) => YamlV::Str(s@),
        Yaml::Alias(s) => YamlV::Alias(s@),
        Yaml::Array(x) => YamlV::Array(
            Seq::new(x@.len(), |i: int| if 0 <= i < x@.len() { node_view(x@[i]) } else { null_view() }),
        ),
        Yaml::Mapping(x) => YamlV::Mapping(
            Seq::new(
                x@.len(),
                |i: int|
                    if 0 <= i < x@.len() {
                        (node_view(x@[i].0), node_view(x@[i].1))
                    } else {
                        (null_view(), null_view())
                    },
            ),
        ),
    }
}

/// The value of a node.
pub open spec fn node_view(n: Node) -> NodeV
    decreases n,
{
    NodeV { pos: n.pos, tag: n.tag@, anchor: n.anchor@, yaml: yaml_view(n.yaml) }
}

/// The data holds no alias, at any depth.
pub open spec fn alias_free(y: YamlV) -> bool
    decreases y,
{
    match y {
        YamlV::Alias(_) => false,
        YamlV::Array(x) => forall|i: int| #![trigger x[i]] 0 <= i < x.len() ==> alias_free(x[i].yaml),
        YamlV::Mapping(x) => forall|i: int|
            #![trigger x[i]]
            0 <= i < x.len() ==> alias_free(x[i].0.yaml) && alias_free(x[i].1.yaml),
        _ => true,
    }
}

/// A sequence of alias-free nodes is alias-free.
pub proof fn lemma_array_alias_free(v: Vec<Node>)
    requires
        forall|k: int| 0 <= k < v@.len() ==> alias_free(yaml_view(#[trigger] v@[k].yaml)),
    ensures
        alias_free(yaml_view(Yaml::Array(v))),
{
    let x = yaml_view(Yaml::Array(v))->Array_0;
    assert forall|i: int| 0 <= i < x.len() implies alias_free(#[trigger] x[i].yaml) by {
        assert(x[i] == node_view(v@[i]));
    }
}

/// A map of alias-free keys and values is alias-free.
pub proof fn lemma_mapping_alias_free(m: Vec<(Node, Node)>)
    requires
        forall|k: int| 0 <= k < m@.len() ==> alias_free(yaml_view(#[trigger] m@[k].0.yaml)) && alias_free(yaml_view(m@[k].1.yaml)),
    ensures
        alias_free(yaml_view(Yaml::Mapping(m))),
{
    let x = yaml_view(Yaml::Mapping(m))->Mapping_0;
    assert forall|i: int| 0 <= i < x.len() implies alias_free(#[trigger] x[i].0.yaml) && alias_free(x[i].1.yaml) by {
        assert(x[i] == (node_view(m@[i].0), node_view(m@[i].1)));
    }
}

/// The same data, down to the strings' contents, positions, tags and anchors of the nodes.
pub open spec fn yaml_same(a: Yaml, b: Yaml) -> bool {
    yaml_view(a) == yaml_view(b)
}

/// The same node: position, tag, anchor and data.
pub open spec fn node_same(a: Node, b: Node) -> bool {
    node_view(a) == node_view(b)
}

/// Index of the first entry of `m` whose key is the same key as `k` (see [`yaml_key_eq`]),
/// from index `from` on.
pub open spec fn first_key(m: Seq<(Node, Node)>, k: Yaml, from: int) -> Option<int>
    decreases m.len() - from,
{
    if from < 0 || from >= m.len() {
        None
    } else if yaml_key_eq(k, m[from].0.yaml) {
        Some(from)
    } else {
        first_key(m, k, from + 1)
    }
}

proof fn lemma_first_key(m: Seq<(Node, Node)>, k: Yaml, from: int)
    requires
        0 <= from <= m.len(),
    ensures
        first_key(m, k, from) matches Some(j) ==> from <= j < m.len() && yaml_key_eq(k, m[j].0.yaml)
            && forall|i: int| from <= i < j ==> !yaml_key_eq(k, #[trigger] m[i].0.yaml),
        first_key(m, k, from) is None ==> forall|i: int| from <= i < m.len() ==> !yaml_key_eq(k, #[trigger] m[i].0.yaml),
    decreases m.len() - from,
{
    if from < m.len() {
        lemma_first_key(m, k, from + 1);
    }
}

/// Compares two YAML data as [`yaml_eq`] says.
pub fn yaml_equal(a: &Yaml, b: &Yaml) -> (r: bool)
    ensures
        r == yaml_eq(*a, *b),
    decreases a,
{
    match (a, b) {
        (Yaml::Null, Yaml::Null) => true,
        (Yaml::Bool(x), Yaml::Bool(y)) => *x == *y,
        (Yaml::Int(x), Yaml::Int(y)) => {
            let r = int_text_eq_exec(x.as_str(), y.as_str());
            assert(r == yaml_eq(*a, *b));
            r
        },
        (Yaml::Float(x), Yaml::Float(y)) => {
            let r = float_text_eq_exec(x.as_str(), y.as_str());
            assert(r == yaml_eq(*a, *b));
            r
        },
        (Yaml::Str(x), Yaml::Str(y)) => *x == *y,
        (Yaml::Alias(x), Yaml::Alias(y)) => *x == *y,
        (Yaml::Array(x), Yaml::Array(y)) => {
            if x.len() != y.len() {
                return false;
            }
            let mut i: usize = 0;
            while i < x.len()
                invariant
                    x@.len() == y@.len(),
                    i <= x@.len(),
                    *a == Yaml::Array(*x),
                    *b == Yaml::Array(*y),
                    forall|k: int| 0 <= k < i ==> yaml_eq(#[trigger] x@[k].yaml, y@[k].yaml),
                decreases x@.len() - i,
            {
                assert(decreases_to!(*a => (*a)->Array_0));
                assert(decreases_to!(*x => x@));
                assert(decreases_to!(x@ => x@[i as int]));
                assert(decreases_to!(x@[i as int] => x@[i as int].yaml));
                if !yaml_equal(&x[i].yaml, &y[i].yaml) {
                    return false;
                }
                i = i + 1;
            }
            assert(yaml_eq(*a, *b));
            true
        },
        (Yaml::Mapping(x), Yaml::Mapping(y)) => {
            if x.len() != y.len() {
                return false;
            }
            let mut i: usize = 0;
            while i < x.len()
                invariant
                    x@.len() == y@.len(),
                    i <= x@.len(),
                    *a == Yaml::Mapping(*x),
                    *b == Yaml::Mapping(*y),
                    forall|k: int| 0 <= k < i ==> yaml_eq(#[trigger] x@[k].0.yaml, y@[k].0.yaml) && yaml_eq(x@[k].1.yaml, y@[k].1.yaml),
                decreases x@.len() - i,
            {
                assert(decreases_to!(*a => (*a)->Mapping_0));
                assert(decreases_to!(*x => x@));
                assert(decreases_to!(x@ => x@[i as int]));
                assert(decreases_to!(x@[i as int] => x@[i as int].0));
                assert(decreases_to!(x@[i as int].0 => x@[i as int].0.yaml));
                assert(decreases_to!(x@[i as int] => x@[i as int].1));
                assert(decreases_to!(x@[i as int].1 => x@[i as int].1.yaml));
                if !yaml_equal(&x[i].0.yaml, &y[i].0.yaml) || !yaml_equal(&x[i].1.yaml, &y[i].1.yaml) {
                    return false;
                }
                i = i + 1;
            }
            assert(yaml_eq(*a, *b));
            true
        },
        _ => false,
    }
}

/// Whether two keys of a map are the same key, as [`yaml_key_eq`] says.
pub fn yaml_key_equal(a: &Yaml, b: &Yaml) -> (r: bool)
    ensures
        r == yaml_key_eq(*a, *b),
    decreases a,
{
    match (a, b) {
        (Yaml::Null, Yaml::Null) => true,
        (Yaml::Bool(x), Yaml::Bool(y)) => *x == *y,
        (Yaml::Int(x), Yaml::Int(y)) => *x == *y,
        (Yaml::Float(x), Yaml::Float(y)) => *x == *y,
        (Yaml::Str(x), Yaml::Str(y)) => *x == *y,
        (Yaml::Alias(x), Yaml::Alias(y)) => *x == *y,
        (Yaml::Array(x), Yaml::Array(y)) => {
            if x.len() != y.len() {
                return false;
            }
            let mut i: usize = 0;
            while i < x.len()
                invariant
                    x@.len() == y@.len(),
                    i <= x@.len(),
                    *a == Yaml::Array(*x),
                    *b == Yaml::Array(*y),
                    forall|k: int| 0 <= k < i ==> yaml_key_eq(#[trigger] x@[k].yaml, y@[k].yaml),
                decreases x@.len() - i,
            {
                assert(decreases_to!(*a => (*a)->Array_0));
                assert(decreases_to!(*x => x@));
                assert(decreases_to!(x@ => x@[i as int]));
                assert(decreases_to!(x@[i as int] => x@[i as int].yaml));
                if !yaml_key_equal(&x[i].yaml, &y[i].yaml) {
                    return false;
                }
                i = i + 1;
            }
            assert(yaml_key_eq(*a, *b));
            true
        },
        (Yaml::Mapping(x), Yaml::Mapping(y)) => {
            if x.len() != y.len() {
                return false;
            }
            let mut i: usize = 0;
            while i < x.len()
                invariant
                    x@.len() == y@.len(),
                    i <= x@.len(),
                    *a == Yaml::Mapping(*x),
                    *b == Yaml::Mapping(*y),
                    forall|k: int| 0 <= k < i ==> yaml_key_eq(#[trigger] x@[k].0.yaml, y@[k].0.yaml) && yaml_key_eq(x@[k].1.yaml, y@[k].1.yaml),
                decreases x@.len() - i,
            {
                assert(decreases_to!(*a => (*a)->Mapping_0));
                assert(decreases_to!(*x => x@));
                assert(decreases_to!(x@ => x@[i as int]));
                assert(decreases_to!(x@[i as int] => x@[i as int].0));
                assert(decreases_to!(x@[i as int].0 => x@[i as int].0.yaml));
                assert(decreases_to!(x@[i as int] => x@[i as int].1));
                assert(decreases_to!(x@[i as int].1 => x@[i as int].1.yaml));
                if !yaml_key_equal(&x[i].0.yaml, &y[i].0.yaml) || !yaml_key_equal(&x[i].1.yaml, &y[i].1.yaml) {
                    return false;
                }
                i = i + 1;
            }
            assert(yaml_key_eq(*a, *b));
            true
        },
        _ => false,
    }
}

impl PartialEq for Yaml {
    fn eq(&self, other: &Self) -> (r: bool) {
        yaml_equal(self, other)
    }
}

impl vstd::std_specs::cmp::PartialEqSpecImpl for Yaml {
    open spec fn obeys_eq_spec() -> bool {
        true
    }

    open spec fn eq_spec(&self, other: &Self) -> bool {
        yaml_eq(*self, *other)
    }
}

impl Eq for Yaml {}

impl PartialEq for Node {
    fn eq(&self, other: &Self) -> (r: bool) {
        yaml_equal(&self.yaml, &other.yaml)
    }
}

impl vstd::std_specs::cmp::PartialEqSpecImpl for Node {
    open spec fn obeys_eq_spec() -> bool {
        true
    }

    open spec fn eq_spec(&self, other: &Self) -> bool {
        yaml_eq(self.yaml, other.yaml)
    }
}

impl Eq for Node {}

impl Clone for Node {
    fn clone(&self) -> (r: Self)
        ensures
            node_same(r, *self),
    {
        node_copy(self)
    }
}

impl Clone for Yaml {
    fn clone(&self) -> (r: Self)
        ensures
            yaml_same(r, *self),
    {
        yaml_copy(self)
    }
}

/// A deep copy of YAML data.
pub fn yaml_copy(a: &Yaml) -> (r: Yaml)
    ensures
        yaml_same(r, *a),
    decreases a,
{
    match a {
        Yaml::Null => Yaml::Null,
        Yaml::Bool(b) => Yaml::Bool(*b),
        Yaml::Int(s) => Yaml::Int(s.clone()),
        Yaml::Float(s) => Yaml::Float(s.clone()),
        Yaml::Str(s) => Yaml::Str(s.clone()),
        Yaml::Alias(s) => Yaml::Alias(s.clone()),
        Yaml::Array(x) => {
            let mut v: Vec<Node> = Vec::new();
            let mut i: usize = 0;
            while i < x.len()
                invariant
                    i <= x@.len(),
                    *a == Yaml::Array(*x),
                    v@.len() == i,
                    forall|k: int| #![trigger v@[k]] 0 <= k < i ==> node_view(v@[k]) == node_view(x@[k]),
                decreases x@.len() - i,
            {
                assert(decreases_to!(*a => (*a)->Array_0));
                assert(decreases_to!(*x => x@));
                assert(decreases_to!(x@ => x@[i as int]));
                v.push(node_copy(&x[i]));
                i = i + 1;
            }
            let r = Yaml::Array(v);
            assert(yaml_view(r) == yaml_view(*a)) by {
                let sv = yaml_view(r)->Array_0;
                let sx = yaml_view(*a)->Array_0;
                assert(sv =~= sx) by {
                    assert forall|k: int| 0 <= k < sv.len() implies sv[k] == sx[k] by {
                        assert(node_view(v@[k]) == node_view(x@[k]));
                    }
                }
            }
            r
        },
        Yaml::Mapping(x) => {
            let mut v: Vec<(Node, Node)> = Vec::new();
            let mut i: usize = 0;
            while i < x.len()
                invariant
                    i <= x@.len(),
                    *a == Yaml::Mapping(*x),
                    v@.len() == i,
                    forall|k: int| #![trigger v@[k]] 0 <= k < i ==> node_view(v@[k].0) == node_view(x@[k].0)
                        && node_view(v@[k].1) == node_view(x@[k].1),
                decreases x@.len() - i,
            {
                assert(decreases_to!(*a => (*a)->Mapping_0));
                assert(decreases_to!(*x => x@));
                assert(decreases_to!(x@ => x@[i as int]));
                assert(decreases_to!(x@[i as int] => x@[i as int].0));
                assert(decreases_to!(x@[i as int] => x@[i as int].1));
                let k = node_copy(&x[i].0);
                let w = node_copy(&x[i].1);
                v.push((k, w));
                i = i + 1;
            }
            let r = Yaml::Mapping(v);
            assert(yaml_view(r) == yaml_view(*a)) by {
                let sv = yaml_view(r)->Mapping_0;
                let sx = yaml_view(*a)->Mapping_0;
                assert(sv =~= sx) by {
                    assert forall|k: int| 0 <= k < sv.len() implies sv[k] == sx[k] by {
                        assert(node_view(v@[k].0) == node_view(x@[k].0));
                    }
                }
            }
            r
        },
    }
}

/// A deep copy of a node.
pub fn node_copy(n: &Node) -> (r: Node)
    ensures
        node_same(r, *n),
    decreases n,
{
    Node { pos: n.pos, tag: n.tag.clone(), anchor: n.anchor.clone(), yaml: yaml_copy(&n.yaml) }
}

} // verus!

verus! {




} // verus!

verus! {

/// The entries of a map after inserting `v` under `k`, as an insertion-ordered map does
/// it: an entry whose key equals `k` moves to the back with the new value and its own key,
/// else the entry is added at the back.
pub open spec fn map_insert_spec(m: Seq<(Node, Node)>, k: Node, v: Node) -> Seq<(Node, Node)> {
    match first_key(m, k.yaml, 0) {
        Some(j) => m.remove(j).push((m[j].0, v)),
        None => m.push((k, v)),
    }
}

/// The entries of the map that inserting the keys `ks` with the values `vs`, in order, into
/// an empty map gives.
pub open spec fn map_of(ks: Seq<Node>, vs: Seq<Node>) -> Seq<(Node, Node)>
    decreases ks.len(),
{
    if ks.len() == 0 {
        seq![]
    } else {
        map_insert_spec(map_of(ks.drop_last(), vs.drop_last()), ks.last(), vs.last())
    }
}

/// Inserting one more entry into the map of `ks` and `vs`.
pub proof fn lemma_map_of_push(ks: Seq<Node>, vs: Seq<Node>, k: Node, v: Node)
    ensures
        map_of(ks.push(k), vs.push(v)) == map_insert_spec(map_of(ks, vs), k, v),
{
    assert(ks.push(k).drop_last() =~= ks);
    assert(vs.push(v).drop_last() =~= vs);
}

/// Inserts an entry into a map, as [`map_insert_spec`] says.
pub fn map_insert(m: &mut Vec<(Node, Node)>, k: Node, v: Node)
    ensures
        final(m)@ == map_insert_spec(old(m)@, k, v),
{
    let mut j: usize = 0;
    while j < m.len()
        invariant
            m@ == old(m)@,
            j <= m@.len(),
            first_key(m@, k.yaml, 0) == first_key(m@, k.yaml, j as int),
        decreases m@.len() - j,
    {
        if yaml_key_equal(&k.yaml, &m[j].0.yaml) {
            let (key, _old) = m.remove(j);
            m.push((key, v));
            return;
        }
        j = j + 1;
    }
    m.push((k, v));
}

/// Inserting into a map keeps a property of all keys and a property of all values that the
/// new key and the new value have, and adds at most one entry.
pub proof fn lemma_map_insert_sources(m: Seq<(Node, Node)>, k: Node, v: Node, pk: spec_fn(Node) -> bool, pv: spec_fn(Node) -> bool)
    requires
        forall|i: int| 0 <= i < m.len() ==> pk(#[trigger] m[i].0) && pv(m[i].1),
        pk(k),
        pv(v),
    ensures
        forall|i: int| 0 <= i < map_insert_spec(m, k, v).len() ==> pk(#[trigger] map_insert_spec(m, k, v)[i].0)
            && pv(map_insert_spec(m, k, v)[i].1),
        m.len() <= map_insert_spec(m, k, v).len() <= m.len() + 1,
        map_insert_spec(m, k, v).len() >= 1,
{
    lemma_first_key(m, k.yaml, 0);
    let r = map_insert_spec(m, k, v);
    match first_key(m, k.yaml, 0) {
        Some(j) => {
            assert forall|i: int| 0 <= i < r.len() implies pk(#[trigger] r[i].0) && pv(r[i].1) by {
                if i < j {
                    assert(r[i] == m[i]);
                } else if i < r.len() - 1 {
                    assert(r[i] == m[i + 1]);
                } else {
                    assert(r[i] == (m[j].0, v));
                }
            }
        },
        None => {
            assert forall|i: int| 0 <= i < r.len() implies pk(#[trigger] r[i].0) && pv(r[i].1) by {
                if i < m.len() {
                    assert(r[i] == m[i]);
                }
            }
        },
    }
}

/// Inserting into a map keeps a property that all keys, all values, and the new entry
/// have.
pub proof fn lemma_map_insert_keeps(m: Seq<(Node, Node)>, k: Node, v: Node, p: spec_fn(Node) -> bool)
    requires
        forall|i: int| 0 <= i < m.len() ==> p(#[trigger] m[i].0) && p(m[i].1),
        p(k),
        p(v),
    ensures
        forall|i: int| 0 <= i < map_insert_spec(m, k, v).len() ==> p(#[trigger] map_insert_spec(m, k, v)[i].0)
            && p(map_insert_spec(m, k, v)[i].1),
{
    lemma_first_key(m, k.yaml, 0);
    let r = map_insert_spec(m, k, v);
    match first_key(m, k.yaml, 0) {
        Some(j) => {
            assert forall|i: int| 0 <= i < r.len() implies p(#[trigger] r[i].0) && p(r[i].1) by {
                if i < j {
                    assert(r[i] == m[i]);
                } else if i < r.len() - 1 {
                    assert(r[i] == m[i + 1]);
                } else {
                    assert(r[i] == (m[j].0, v));
                }
            }
        },
        None => {
            assert forall|i: int| 0 <= i < r.len() implies p(#[trigger] r[i].0) && p(r[i].1) by {
                if i < m.len() {
                    assert(r[i] == m[i]);
                }
            }
        },
    }
}

/// YAML data equals itself.
pub proof fn lemma_yaml_eq_refl(y: Yaml)
    ensures
        yaml_eq(y, y),
    decreases y,
{
    match y {
        Yaml::Array(x) => {
            assert forall|i: int| #![trigger x@[i]] 0 <= i < x@.len() implies yaml_eq(x@[i].yaml, x@[i].yaml) by {
                assert(decreases_to!(y => y->Array_0));
                assert(decreases_to!(x => x@));
                assert(decreases_to!(x@ => x@[i]));
                lemma_yaml_eq_refl(x@[i].yaml);
            }
        },
        Yaml::Mapping(x) => {
            assert forall|i: int| #![trigger x@[i]] 0 <= i < x@.len() implies yaml_eq(x@[i].0.yaml, x@[i].0.yaml) && yaml_eq(x@[i].1.yaml, x@[i].1.yaml) by {
                assert(decreases_to!(y => y->Mapping_0));
                assert(decreases_to!(x => x@));
                assert(decreases_to!(x@ => x@[i]));
                assert(decreases_to!(x@[i] => x@[i].0));
                assert(decreases_to!(x@[i] => x@[i].1));
                lemma_yaml_eq_refl(x@[i].0.yaml);
                lemma_yaml_eq_refl(x@[i].1.yaml);
            }
        },
        _ => {},
    }
}

/// Nodes compare by their data alone: two nodes with the same data are equal whatever
/// their positions, tags and anchors.
pub proof fn lemma_node_eq_ignores_info(a: Node, b: Node)
    requires
        a.yaml == b.yaml,
    ensures
        a.eq_spec(&b),
{
    lemma_yaml_eq_refl(a.yaml);
}

impl From<()> for Yaml {
    /// Null data.
    fn from(_v: ()) -> (r: Self) {
        Yaml::Null
    }
}

impl vstd::std_specs::convert::FromSpecImpl<()> for Yaml {
    open spec fn obeys_from_spec() -> bool {
        true
    }

    open spec fn from_spec(_v: ()) -> Self {
        Yaml::Null
    }
}

impl From<bool> for Yaml {
    /// Boolean data.
    fn from(b: bool) -> (r: Self) {
        Yaml::Bool(b)
    }
}

impl vstd::std_specs::convert::FromSpecImpl<bool> for Yaml {
    open spec fn obeys_from_spec() -> bool {
        true
    }

    open spec fn from_spec(b: bool) -> Self {
        Yaml::Bool(b)
    }
}

impl From<String> for Yaml {
    /// String data.
    fn from(s: String) -> (r: Self) {
        Yaml::Str(s)
    }
}

impl vstd::std_specs::convert::FromSpecImpl<String> for Yaml {
    open spec fn obeys_from_spec() -> bool {
        true
    }

    open spec fn from_spec(s: String) -> Self {
        Yaml::Str(s)
    }
}

impl From<Vec<Node>> for Yaml {
    /// Sequence data.
    fn from(a: Vec<Node>) -> (r: Self) {
        Yaml::Array(a)
    }
}

impl vstd::std_specs::convert::FromSpecImpl<Vec<Node>> for Yaml {
    open spec fn obeys_from_spec() -> bool {
        true
    }

    open spec fn from_spec(a: Vec<Node>) -> Self {
        Yaml::Array(a)
    }
}

impl From<Vec<(Node, Node)>> for Yaml {
    /// Map data.
    fn from(m: Vec<(Node, Node)>) -> (r: Self) {
        Yaml::Mapping(m)
    }
}

impl vstd::std_specs::convert::FromSpecImpl<Vec<(Node, Node)>> for Yaml {
    open spec fn obeys_from_spec() -> bool {
        true
    }

    open spec fn from_spec(m: Vec<(Node, Node)>) -> Self {
        Yaml::Mapping(m)
    }
}

} // verus!
