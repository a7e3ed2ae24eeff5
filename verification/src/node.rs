//! Reading nodes: getters, conversions and lookups.
use crate::yaml::{first_key, node_copy, node_same, yaml_copy, yaml_eq, yaml_equal, yaml_key_equal, yaml_same, Node, Yaml};
use vstd::prelude::*;

verus! {

/// Indicator of the node use to index the sequence position.
pub struct Ind(pub usize);

/// The tag of the core schema for the kind of `y`; an alias has none.
pub open spec fn default_tag(y: Yaml) -> Seq<char> {
    match y {
        Yaml::Null => "tag:yaml.org,2002:null"@,
        Yaml::Bool(_) => "tag:yaml.org,2002:bool"@,
        Yaml::Int(_) => "tag:yaml.org,2002:int"@,
        Yaml::Float(_) => "tag:yaml.org,2002:float"@,
        Yaml::Str(_) => "tag:yaml.org,2002:str"@,
        Yaml::Array(_) => "tag:yaml.org,2002:seq"@,
        Yaml::Mapping(_) => "tag:yaml.org,2002:map"@,
        Yaml::Alias(_) => ""@,
    }
}

/// The core schema tag `tag:yaml.org,2002:` followed by `kind`, as characters.
pub open spec fn core_tag(kind: Seq<char>) -> Seq<char> {
    seq!['t', 'a', 'g', ':', 'y', 'a', 'm', 'l', '.', 'o', 'r', 'g', ',', '2', '0', '0', '2', ':'] + kind
}

/// The default tag of data is the core schema tag named after its kind: `null`, `bool`,
/// `int`, `float`, `str`, `seq` for a sequence and `map` for a map; an alias has none.
pub proof fn lemma_default_tag_kinds(y: Yaml)
    ensures
        y is Null ==> default_tag(y) == core_tag(seq!['n', 'u', 'l', 'l']),
        y is Bool ==> default_tag(y) == core_tag(seq!['b', 'o', 'o', 'l']),
        y is Int ==> default_tag(y) == core_tag(seq!['i', 'n', 't']),
        y is Float ==> default_tag(y) == core_tag(seq!['f', 'l', 'o', 'a', 't']),
        y is Str ==> default_tag(y) == core_tag(seq!['s', 't', 'r']),
        y is Array ==> default_tag(y) == core_tag(seq!['s', 'e', 'q']),
        y is Mapping ==> default_tag(y) == core_tag(seq!['m', 'a', 'p']),
        y is Alias ==> default_tag(y).len() == 0,
{
    reveal_strlit("tag:yaml.org,2002:null");
    reveal_strlit("tag:yaml.org,2002:bool");
    reveal_strlit("tag:yaml.org,2002:int");
    reveal_strlit("tag:yaml.org,2002:float");
    reveal_strlit("tag:yaml.org,2002:str");
    reveal_strlit("tag:yaml.org,2002:seq");
    reveal_strlit("tag:yaml.org,2002:map");
    reveal_strlit("");
    assert("tag:yaml.org,2002:null"@ =~= core_tag(seq!['n', 'u', 'l', 'l']));
    assert("tag:yaml.org,2002:bool"@ =~= core_tag(seq!['b', 'o', 'o', 'l']));
    assert("tag:yaml.org,2002:int"@ =~= core_tag(seq!['i', 'n', 't']));
    assert("tag:yaml.org,2002:float"@ =~= core_tag(seq!['f', 'l', 'o', 'a', 't']));
    assert("tag:yaml.org,2002:str"@ =~= core_tag(seq!['s', 't', 'r']));
    assert("tag:yaml.org,2002:seq"@ =~= core_tag(seq!['s', 'e', 'q']));
    assert("tag:yaml.org,2002:map"@ =~= core_tag(seq!['m', 'a', 'p']));
}

/// Index of the entry whose key equals `k`, as a map lookup finds it.
pub fn map_find(m: &Vec<(Node, Node)>, k: &Yaml) -> (r: Option<usize>)
    ensures
        r matches Some(j) ==> j < m@.len() && first_key(m@, *k, 0) == Some(j as int),
        r is None ==> first_key(m@, *k, 0) is None,
{
    let mut j: usize = 0;
    while j < m.len()
        invariant
            j <= m@.len(),
            first_key(m@, *k, 0) == first_key(m@, *k, j as int),
        decreases m@.len() - j,
    {
        if yaml_key_equal(k, &m[j].0.yaml) {
            return Some(j);
        }
        j = j + 1;
    }
    None
}

impl Node {
    /// Creates a node from YAML data.
    pub fn new(yaml: Yaml, pos: u64, tag: &str, anchor: &str) -> (n: Node)
        ensures
            n.yaml == yaml,
            n.pos == pos,
            n.tag@ == tag@,
            n.anchor@ == anchor@,
    {
        Node { pos, tag: tag.to_owned(), anchor: anchor.to_owned(), yaml }
    }

    /// Document position.
    pub fn pos(&self) -> (p: u64)
        ensures
            p == self.pos,
    {
        self.pos
    }

    /// Tag. If the tag is not specified, returns a default tag from the core schema.
    pub fn tag(&self) -> (t: &str)
        ensures
            t@ == (if self.tag@.len() == 0 { default_tag(self.yaml) } else { self.tag@ }),
            self.tag@.len() == 0 && self.yaml is Array ==> t@ == core_tag(seq!['s', 'e', 'q']),
            self.tag@.len() == 0 && self.yaml is Mapping ==> t@ == core_tag(seq!['m', 'a', 'p']),
            self.tag@.len() == 0 && self.yaml is Str ==> t@ == core_tag(seq!['s', 't', 'r']),
            self.tag@.len() == 0 && self.yaml is Int ==> t@ == core_tag(seq!['i', 'n', 't']),
            self.tag@.len() == 0 && self.yaml is Float ==> t@ == core_tag(seq!['f', 'l', 'o', 'a', 't']),
            self.tag@.len() == 0 && self.yaml is Bool ==> t@ == core_tag(seq!['b', 'o', 'o', 'l']),
            self.tag@.len() == 0 && self.yaml is Null ==> t@ == core_tag(seq!['n', 'u', 'l', 'l']),
    {
        proof {
            lemma_default_tag_kinds(self.yaml);
        }
        if self.tag.as_str().is_empty() {
            proof {
                reveal_strlit("tag:yaml.org,2002:null");
                reveal_strlit("tag:yaml.org,2002:bool");
                reveal_strlit("tag:yaml.org,2002:int");
                reveal_strlit("tag:yaml.org,2002:float");
                reveal_strlit("tag:yaml.org,2002:str");
                reveal_strlit("tag:yaml.org,2002:seq");
                reveal_strlit("tag:yaml.org,2002:map");
                reveal_strlit("");
            }
            match &self.yaml {
                Yaml::Null => "tag:yaml.org,2002:null",
                Yaml::Bool(_) => "tag:yaml.org,2002:bool",
                Yaml::Int(_) => "tag:yaml.org,2002:int",
                Yaml::Float(_) => "tag:yaml.org,2002:float",
                Yaml::Str(_) => "tag:yaml.org,2002:str",
                Yaml::Array(_) => "tag:yaml.org,2002:seq",
                Yaml::Mapping(_) => "tag:yaml.org,2002:map",
                Yaml::Alias(_) => "",
            }
        } else {
            self.tag.as_str()
        }
    }

    /// Anchor reference.
    pub fn anchor(&self) -> (a: &str)
        ensures
            a@ == self.anchor@,
    {
        self.anchor.as_str()
    }

    /// YAML data.
    pub fn yaml(&self) -> (y: &Yaml)
        ensures
            *y == self.yaml,
    {
        &self.yaml
    }

    /// A copy of the YAML data.
    pub fn clone_yaml(&self) -> (y: Yaml)
        ensures
            yaml_same(y, self.yaml),
    {
        yaml_copy(&self.yaml)
    }

    /// Check the value is null.
    pub fn is_null(&self) -> (b: bool)
        ensures
            b == (self.yaml is Null),
    {
        match &self.yaml {
            Yaml::Null => true,
            _ => false,
        }
    }

    /// Converts to boolean, or gives the node position.
    pub fn as_bool(&self) -> (r: Result<bool, u64>)
        ensures
            r == (match self.yaml {
                Yaml::Bool(b) => Ok::<bool, u64>(b),
                _ => Err(self.pos),
            }),
    {
        match &self.yaml {
            Yaml::Bool(b) => Ok(*b),
            _ => Err(self.pos),
        }
    }

    /// Converts to integer, reading the text as a decimal number as `str::parse` does, or
    /// gives the node position if the node is not such an integer that fits in an `i64`.
    pub fn as_int(&self) -> (r: Result<i64, u64>)
        ensures
            r == (match self.yaml {
                Yaml::Int(s) => match crate::number::radix_value(crate::yaml::text_bytes(s), 10) {
                    Some(v) => Ok::<i64, u64>(v as i64),
                    None => Err(self.pos),
                },
                _ => Err(self.pos),
            }),
    {
        match &self.yaml {
            Yaml::Int(s) => match crate::number::parse_radix(s.as_str().as_bytes(), 10) {
                Some(v) => Ok(v),
                None => Err(self.pos),
            },
            _ => Err(self.pos),
        }
    }

    /// Converts to string pointer. Null is represented as an empty string.
    pub fn as_str(&self) -> (r: Result<&str, u64>)
        ensures
            match self.yaml {
                Yaml::Str(s) => r matches Ok(t) && t@ == s@,
                Yaml::Null => r matches Ok(t) && t@.len() == 0,
                _ => r == Err::<&str, u64>(self.pos),
            },
    {
        match &self.yaml {
            Yaml::Str(s) => Ok(s.as_str()),
            Yaml::Null => {
                proof { reveal_strlit(""); }
                Ok("")
            },
            _ => Err(self.pos),
        }
    }

    /// Converts to string pointer for string, null, bool, int, and float type.
    pub fn as_value(&self) -> (r: Result<&str, u64>)
        ensures
            match self.yaml {
                Yaml::Str(s) => r matches Ok(t) && t@ == s@,
                Yaml::Int(s) => r matches Ok(t) && t@ == s@,
                Yaml::Float(s) => r matches Ok(t) && t@ == s@,
                Yaml::Bool(b) => r matches Ok(t) && t@ == (if b { "true"@ } else { "false"@ }),
                Yaml::Null => r matches Ok(t) && t@.len() == 0,
                _ => r == Err::<&str, u64>(self.pos),
            },
    {
        proof {
            reveal_strlit("true");
            reveal_strlit("false");
            reveal_strlit("");
        }
        match &self.yaml {
            Yaml::Str(s) => Ok(s.as_str()),
            Yaml::Int(s) => Ok(s.as_str()),
            Yaml::Float(s) => Ok(s.as_str()),
            Yaml::Bool(true) => Ok("true"),
            Yaml::Bool(false) => Ok("false"),
            Yaml::Null => Ok(""),
            _ => Err(self.pos),
        }
    }

    /// Converts to sequence (a copy of the items), or gives the node position.
    pub fn as_seq(&self) -> (r: Result<Vec<Node>, u64>)
        ensures
            match self.yaml {
                Yaml::Array(v) => r matches Ok(w) && yaml_same(Yaml::Array(w), self.yaml),
                _ => r == Err::<Vec<Node>, u64>(self.pos),
            },
    {
        match &self.yaml {
            Yaml::Array(_) => match yaml_copy(&self.yaml) {
                Yaml::Array(w) => Ok(w),
                _ => Err(self.pos),
            },
            _ => Err(self.pos),
        }
    }

    /// Converts to map (a copy of the entries), or gives the node position.
    pub fn as_map(&self) -> (r: Result<Vec<(Node, Node)>, u64>)
        ensures
            match self.yaml {
                Yaml::Mapping(v) => r matches Ok(w) && yaml_same(Yaml::Mapping(w), self.yaml),
                _ => r == Err::<Vec<(Node, Node)>, u64>(self.pos),
            },
    {
        match &self.yaml {
            Yaml::Mapping(_) => match yaml_copy(&self.yaml) {
                Yaml::Mapping(w) => Ok(w),
                _ => Err(self.pos),
            },
            _ => Err(self.pos),
        }
    }

    /// Converts to map and gets the value of the first key that equals `key`.
    /// If the node is not a map or the key is missing, gives the node position.
    pub fn get(&self, key: &Node) -> (r: Result<&Node, u64>)
        ensures
            match self.yaml {
                Yaml::Mapping(m) => match first_key(m@, key.yaml, 0) {
                    Some(j) => r == Ok::<&Node, u64>(&m@[j].1),
                    None => r == Err::<&Node, u64>(self.pos),
                },
                _ => r == Err::<&Node, u64>(self.pos),
            },
    {
        match &self.yaml {
            Yaml::Mapping(m) => match map_find(m, &key.yaml) {
                Some(j) => Ok(&m[j].1),
                None => Err(self.pos),
            },
            _ => Err(self.pos),
        }
    }

    /// Same as [`Node::get`] but gives `default` if the key is missing, and converts
    /// the value with `factory` if it is there.
    pub fn get_default<'a, Ret, F>(&'a self, key: &Node, default: Ret, factory: F) -> (r: Result<Ret, u64>)
        where
            F: Fn(&'a Node) -> Result<Ret, u64>,
        requires
            forall|n: &'a Node| call_requires(factory, (n,)),
        ensures
            match self.yaml {
                Yaml::Mapping(m) => match first_key(m@, key.yaml, 0) {
                    Some(j) => call_ensures(factory, (&m@[j].1,), r),
                    None => r == Ok::<Ret, u64>(default),
                },
                _ => r == Err::<Ret, u64>(self.pos),
            },
    {
        match &self.yaml {
            Yaml::Mapping(m) => match map_find(m, &key.yaml) {
                Some(j) => factory(&m[j].1),
                None => Ok(default),
            },
            _ => Err(self.pos),
        }
    }

    /// Gets the item at the index of the indicator, for sequences only; else gives the
    /// node position.
    pub fn get_ind(&self, ind: Ind) -> (r: Result<&Node, u64>)
        ensures
            match self.yaml {
                Yaml::Array(v) => if ind.0 < v@.len() {
                    r == Ok::<&Node, u64>(&v@[ind.0 as int])
                } else {
                    r == Err::<&Node, u64>(self.pos)
                },
                _ => r == Err::<&Node, u64>(self.pos),
            },
    {
        match &self.yaml {
            Yaml::Array(v) => if ind.0 < v.len() {
                Ok(&v[ind.0])
            } else {
                Err(self.pos)
            },
            _ => Err(self.pos),
        }
    }

    /// Creates a node with the position, tag and anchor of this one, and other data.
    pub fn new_with_yaml(&self, yaml: Yaml) -> (n: Node)
        ensures
            n.yaml == yaml,
            n.pos == self.pos,
            n.tag@ == self.tag@,
            n.anchor@ == self.anchor@,
    {
        Node { pos: self.pos, tag: self.tag.clone(), anchor: self.anchor.clone(), yaml }
    }
}

} // verus!
