//! Data types that the (de)serialization of YAML data uses: listed or inline items, an
//! optional value that a boolean can switch, a value or an anchor insertion, and the error.
use crate::yaml::{Node, Yaml};
use vstd::prelude::*;

verus! {

/// The representation symbol of a single-thread holder.
pub struct RcRepr;

/// The representation symbol of a multi-thread holder.
pub struct ArcRepr;

/// A data type that can support listed items, or inline it if there is single item.
pub enum InlineList<T> {
    /// Listed representation.
    List(Vec<T>),
    /// Inline representation.
    Inline(T),
}

impl<T> InlineList<T> {
    /// The items: those of the list, or the inline item alone.
    pub open spec fn items(&self) -> Seq<T> {
        match self {
            InlineList::List(v) => v@,
            InlineList::Inline(e) => seq![*e],
        }
    }

    /// The items, in order.
    pub fn iter(&self) -> (r: Vec<&T>)
        ensures
            r@.len() == self.items().len(),
            forall|i: int| 0 <= i < r@.len() ==> *#[trigger] r@[i] == self.items()[i],
    {
        match self {
            InlineList::List(v) => {
                let mut r: Vec<&T> = Vec::new();
                let mut i: usize = 0;
                while i < v.len()
                    invariant
                        i <= v@.len(),
                        r@.len() == i,
                        forall|k: int| 0 <= k < i ==> *#[trigger] r@[k] == v@[k],
                    decreases v@.len() - i,
                {
                    r.push(&v[i]);
                    i = i + 1;
                }
                r
            },
            InlineList::Inline(e) => {
                let mut r: Vec<&T> = Vec::new();
                r.push(e);
                r
            },
        }
    }

    /// The items, moved out in order.
    pub fn into_vec(self) -> (r: Vec<T>)
        ensures
            r@ == self.items(),
    {
        match self {
            InlineList::List(v) => v,
            InlineList::Inline(e) => {
                let mut r: Vec<T> = Vec::new();
                r.push(e);
                assert(r@ =~= seq![e]);
                r
            },
        }
    }

    /// The number of items.
    pub fn len(&self) -> (n: usize)
        ensures
            n == self.items().len(),
    {
        match self {
            InlineList::List(v) => v.len(),
            InlineList::Inline(_) => 1,
        }
    }

    /// There is no item.
    pub fn is_empty(&self) -> (b: bool)
        ensures
            b == (self.items().len() == 0),
    {
        match self {
            InlineList::List(v) => v.len() == 0,
            InlineList::Inline(_) => false,
        }
    }

    /// There is exactly one item.
    pub fn is_single(&self) -> (b: bool)
        ensures
            b == (self.items().len() == 1),
    {
        match self {
            InlineList::List(v) => v.len() == 1,
            InlineList::Inline(_) => true,
        }
    }
}

impl<T> Default for InlineList<T> {
    /// An empty list.
    fn default() -> (r: Self)
        ensures
            r matches InlineList::List(v) && v@.len() == 0,
    {
        InlineList::List(Vec::new())
    }
}

/// A value that can be disabled (`false`), defaulted (`true`), or given.
pub enum Optional<T> {
    /// Boolean value, false means disable, true means default.
    Bool(bool),
    /// The custom option.
    Custom(T),
}

impl<T> Default for Optional<T> {
    /// Enabled with the default value.
    fn default() -> (r: Self)
        ensures
            r == Optional::<T>::Bool(true),
    {
        Optional::Bool(true)
    }
}

impl<T> Optional<T> {
    /// Calls `ok` with the value, only if the value is enabled: with `T::default()` for
    /// `Bool(true)`, with the custom value for `Custom`; nothing for `Bool(false)`.
    pub fn ok<F: FnMut(&T)>(&self, ok: F)
        where
            T: Default,
        requires
            forall|t: &T| call_requires(ok, (t,)),
        ensures
            match self {
                Optional::Bool(false) => true,
                Optional::Bool(true) => exists|d: T| call_ensures(T::default, (), d) && call_ensures(ok, (&d,), ()),
                Optional::Custom(t) => call_ensures(ok, (t,), ()),
            },
    {
        let mut ok = ok;
        match self {
            Optional::Bool(false) => {},
            Optional::Bool(true) => {
                let d = T::default();
                ok(&d);
            },
            Optional::Custom(t) => {
                ok(t);
            },
        }
    }

    /// Same as [`Self::ok`], with `default` for `Bool(true)`.
    pub fn ok_instead<F: FnMut(&T)>(&self, ok: F, default: &T)
        requires
            forall|t: &T| call_requires(ok, (t,)),
        ensures
            match self {
                Optional::Bool(false) => true,
                Optional::Bool(true) => call_ensures(ok, (default,), ()),
                Optional::Custom(t) => call_ensures(ok, (t,), ()),
            },
    {
        let mut ok = ok;
        match self {
            Optional::Bool(false) => {},
            Optional::Bool(true) => {
                ok(default);
            },
            Optional::Custom(t) => {
                ok(t);
            },
        }
    }

    /// Gives what `ok` returns for the value where the value is enabled (`T::default()` for
    /// `Bool(true)`), else what `or` returns.
    pub fn ok_or<R, K: FnMut(&T) -> R, E: FnMut() -> R>(&self, ok: K, or: E) -> (r: R)
        where
            T: Default,
        requires
            forall|t: &T| call_requires(ok, (t,)),
            call_requires(or, ()),
        ensures
            match self {
                Optional::Bool(false) => call_ensures(or, (), r),
                Optional::Bool(true) => exists|d: T| call_ensures(T::default, (), d) && call_ensures(ok, (&d,), r),
                Optional::Custom(t) => call_ensures(ok, (t,), r),
            },
    {
        let mut ok = ok;
        let mut or = or;
        match self {
            Optional::Bool(false) => or(),
            Optional::Bool(true) => {
                let d = T::default();
                ok(&d)
            },
            Optional::Custom(t) => ok(t),
        }
    }

    /// Same as [`Self::ok_or`], with `default` for `Bool(true)`.
    pub fn ok_or_instead<R, K: FnMut(&T) -> R, E: FnMut() -> R>(&self, ok: K, default: &T, or: E) -> (r: R)
        requires
            forall|t: &T| call_requires(ok, (t,)),
            call_requires(or, ()),
        ensures
            match self {
                Optional::Bool(false) => call_ensures(or, (), r),
                Optional::Bool(true) => call_ensures(ok, (default,), r),
                Optional::Custom(t) => call_ensures(ok, (t,), r),
            },
    {
        let mut ok = ok;
        let mut or = or;
        match self {
            Optional::Bool(false) => or(),
            Optional::Bool(true) => ok(default),
            Optional::Custom(t) => ok(t),
        }
    }
}

/// The error type of the (de)serialization: the message, and the position of the node in
/// the document (zero where there is none).
pub struct SerdeError {
    /// Message.
    pub msg: String,
    /// The position of the node in the document, if provided.
    pub pos: u64,
}

impl SerdeError {
    /// The same error at another position.
    pub fn pos(self, pos: u64) -> (e: Self)
        ensures
            e.msg@ == self.msg@,
            e.pos == pos,
    {
        SerdeError { msg: self.msg, pos }
    }
}

impl From<String> for SerdeError {
    fn from(msg: String) -> (e: Self) {
        SerdeError { msg, pos: 0 }
    }
}

impl vstd::std_specs::convert::FromSpecImpl<String> for SerdeError {
    open spec fn obeys_from_spec() -> bool {
        true
    }

    open spec fn from_spec(msg: String) -> Self {
        SerdeError { msg, pos: 0 }
    }
}

/// A value, or the insertion of an anchored value (`{anchor: name}`).
pub enum Foreign<D> {
    /// The value itself.
    Data(D),
    /// The name of the anchor.
    Anchor {
        /// Anchor name.
        anchor: String,
    },
}

impl<D> Foreign<D> {
    /// Creates a value.
    pub fn data(data: D) -> (f: Self)
        ensures
            f == Foreign::<D>::Data(data),
    {
        Foreign::Data(data)
    }

    /// Creates an anchor insertion.
    pub fn anchor(s: &str) -> (f: Self)
        ensures
            f matches Foreign::Anchor { anchor } && anchor@ == s@,
    {
        Foreign::Anchor { anchor: s.to_owned() }
    }
}

impl<D: Default> Default for Foreign<D> {
    /// The default value.
    fn default() -> (f: Self)
        ensures
            f matches Foreign::Data(d) && call_ensures(D::default, (), d),
    {
        Foreign::Data(D::default())
    }
}

/// The entries are one anchor insertion: a single entry whose key is the string
/// `anchor` and whose value is a string or null.
pub open spec fn is_anchor_insertion(m: Seq<(Node, Node)>) -> bool {
    &&& m.len() == 1
    &&& m[0].0.yaml matches Yaml::Str(k) && k@ == seq!['a', 'n', 'c', 'h', 'o', 'r']
    &&& (m[0].1.yaml is Str || m[0].1.yaml is Null)
}

/// The data that serialized map entries stand for: an alias for an anchor insertion
/// (`{anchor: name}`, a null name being empty), else the map.
pub fn struct_data(m: Vec<(Node, Node)>) -> (y: Yaml)
    ensures
        is_anchor_insertion(m@) ==> (y matches Yaml::Alias(a) && a@ == (match m@[0].1.yaml {
            Yaml::Str(s) => s@,
            _ => Seq::<char>::empty(),
        })),
        !is_anchor_insertion(m@) ==> y == Yaml::Mapping(m),
{
    if m.len() == 1 {
        let key = vec!['a', 'n', 'c', 'h', 'o', 'r'];
        let is_key = match &m[0].0.yaml {
            Yaml::Str(k) => {
                let kc = crate::text::chars_of(k.as_str());
                let mut same = kc.len() == 6;
                let mut i: usize = 0;
                while same && i < 6
                    invariant
                        i <= 6,
                        key@ == seq!['a', 'n', 'c', 'h', 'o', 'r'],
                        same ==> kc@.len() == 6 && forall|j: int| 0 <= j < i ==> kc@[j] == key@[j],
                        !same ==> kc@ != key@,
                    decreases 6 - i + (if same { 1int } else { 0int }),
                {
                    if kc[i] != key[i] {
                        same = false;
                    } else {
                        i = i + 1;
                    }
                }
                proof {
                    if same {
                        assert(kc@ =~= key@);
                    }
                }
                same
            },
            _ => false,
        };
        if is_key {
            match &m[0].1.yaml {
                Yaml::Str(a) => {
                    return Yaml::Alias(a.clone());
                },
                Yaml::Null => {
                    return Yaml::Alias(String::new());
                },
                _ => {},
            }
        }
    }
    Yaml::Mapping(m)
}

} // verus!
