//! Dumper components.
use crate::anchors::{anchor_entries, anchors_iter, Anchors};
use crate::node::default_tag;
use crate::parser::grammar::is_alnum;
use crate::parser::strings::plain_start;
use crate::parser::Parser;
use crate::text::chars_of;
use crate::yaml::{yaml_eq, yaml_equal, Node, Yaml};
use vstd::prelude::*;
use vstd::utf8::encode_utf8;

verus! {

/// Newline symbol.
pub const NL: &'static str = "\n";

/// Where a node stands: at the top, as a map key or value, or as a sequence item.
#[derive(PartialEq, Eq, Structural, Clone, Copy)]
pub enum Root {
    /// At the top.
    Scalar,
    /// In a map.
    Mapping,
    /// In a sequence.
    Array,
}

/// The newline as characters.
pub open spec fn nl() -> Seq<char> {
    seq!['\n']
}

/// The indentation of a level: two spaces each.
pub open spec fn indent(level: nat) -> Seq<char> {
    Seq::new(2 * level, |_i: int| ' ')
}

/// The characters that `char::is_whitespace` accepts (the Unicode `White_Space` property).
pub open spec fn is_white(c: char) -> bool {
    let u = c as u32;
    (0x09 <= u <= 0x0d) || u == 0x20 || u == 0x85 || u == 0xa0 || u == 0x1680 || (0x2000 <= u <= 0x200a)
        || u == 0x2028 || u == 0x2029 || u == 0x202f || u == 0x205f || u == 0x3000
}

/// The characters without their trailing white space, as `str::trim_end` gives them.
pub open spec fn trim_end_chars(s: Seq<char>) -> Seq<char>
    decreases s.len(),
{
    if s.len() > 0 && is_white(s.last()) {
        trim_end_chars(s.drop_last())
    } else {
        s
    }
}

/// The characters without their leading white space, as `str::trim_start` gives them.
pub open spec fn trim_start_chars(s: Seq<char>) -> Seq<char>
    decreases s.len(),
{
    if s.len() > 0 && is_white(s[0]) {
        trim_start_chars(s.drop_first())
    } else {
        s
    }
}

/// The characters without their leading and trailing white space, as `str::trim` gives
/// them.
pub open spec fn trim_chars(s: Seq<char>) -> Seq<char> {
    trim_end_chars(trim_start_chars(s))
}

/// Index of the first `\n` in `s` from `i` on.
pub open spec fn nl_index(s: Seq<char>, i: int) -> Option<int>
    decreases s.len() - i,
{
    if i < 0 || i >= s.len() {
        None
    } else if s[i] == '\n' {
        Some(i)
    } else {
        nl_index(s, i + 1)
    }
}

/// The first `\n` from `i` on is at `q`.
pub proof fn lemma_nl_index(s: Seq<char>, i: int)
    ensures
        nl_index(s, i) matches Some(q) ==> 0 <= i <= q < s.len() && s[q] == '\n'
            && forall|k: int| i <= k < q ==> s[k] != '\n',
        nl_index(s, i) is None && 0 <= i ==> forall|k: int| i <= k < s.len() ==> s[k] != '\n',
    decreases s.len() - i,
{
    if 0 <= i < s.len() && s[i] != '\n' {
        lemma_nl_index(s, i + 1);
    }
}

/// A line without the `\r` that ends it.
pub open spec fn strip_cr(l: Seq<char>) -> Seq<char> {
    if l.len() > 0 && l.last() == '\r' {
        l.drop_last()
    } else {
        l
    }
}

/// The lines of `s` from `i` on, as `str::lines` splits them: at each `\n`, a `\r` before
/// it dropped; a last empty line is not one.
pub open spec fn lines_from(s: Seq<char>, i: int) -> Seq<Seq<char>>
    decreases s.len() - i,
{
    if i < 0 || i >= s.len() {
        Seq::empty()
    } else {
        match nl_index(s, i) {
            Some(q) => {
                proof {
                    lemma_nl_index(s, i);
                }
                seq![strip_cr(s.subrange(i, q))] + lines_from(s, q + 1)
            },
            None => seq![s.subrange(i, s.len() as int)],
        }
    }
}

/// A line of a block string: indented and without its trailing white space; an empty line
/// stays empty.
pub open spec fn line_text(l: Seq<char>, level: nat) -> Seq<char> {
    if l.len() == 0 {
        Seq::empty()
    } else {
        indent(level) + trim_end_chars(l)
    }
}

/// The first `k` lines, each as [`line_text`] gives it, joined by newlines.
pub open spec fn join_lines(ls: Seq<Seq<char>>, level: nat, k: int) -> Seq<char>
    decreases k,
{
    if k <= 0 {
        Seq::empty()
    } else if k == 1 {
        line_text(ls[0], level)
    } else {
        join_lines(ls, level, k - 1) + nl() + line_text(ls[k - 1], level)
    }
}

/// A string is written plain when a plain scalar can start at its first byte, which is
/// no vertical tab.
pub open spec fn plain_text(s: Seq<char>) -> bool {
    plain_start(encode_utf8(s), 0, false) && encode_utf8(s)[0] != 11u8
}

/// What `format!("{:?}", s)` makes of a string: the quoted and escaped form.
pub uninterp spec fn debug_quoted(s: Seq<char>) -> Seq<char>;

/// Formats a string with `format!("{:?}", s)`, the quoted form of its `Debug` impl; the
/// contract claims only that the result is a function of the characters.
#[verifier::external_body]
fn debug_string(s: &str) -> (r: String)
    ensures
        r@ == debug_quoted(s@),
{
    format!("{:?}", s)
}

/// How a string is written at `level`: a string of two or more lines as a literal block
/// (`|`, then its lines indented, the whole trimmed); else plain where it can be read back
/// plain, else quoted.
pub open spec fn str_text(s: Seq<char>, level: nat) -> Seq<char> {
    let ls = lines_from(s, 0);
    if ls.len() >= 2 {
        seq!['|'] + nl() + indent(level) + trim_chars(join_lines(ls, level, ls.len() as int))
    } else if plain_text(s) {
        s
    } else {
        debug_quoted(s)
    }
}

/// The tag prefix of the YAML core schema, `tag:yaml.org,2002:`.
pub open spec fn tag_prefix_chars() -> Seq<char> {
    seq!['t', 'a', 'g', ':', 'y', 'a', 'm', 'l', '.', 'o', 'r', 'g', ',', '2', '0', '0', '2', ':']
}

/// The tag of a node, or the default tag of its data.
pub open spec fn node_tag(n: Node) -> Seq<char> {
    if n.tag@.len() == 0 {
        default_tag(n.yaml)
    } else {
        n.tag@
    }
}

/// The tag written before a node: none for an empty tag or one of the core schema; else
/// `!tag ` where the tag starts with a letter or digit, else `!<tag> `.
pub open spec fn tag_text(n: Node) -> Seq<char> {
    let t = node_tag(n);
    if t.len() == 0 || (t.len() >= 18 && t.subrange(0, 18) == tag_prefix_chars()) {
        Seq::empty()
    } else if is_alnum(encode_utf8(t)[0]) {
        seq!['!'] + t + seq![' ']
    } else {
        seq!['!', '<'] + t + seq!['>', ' ']
    }
}

/// The name of the first entry of the visitor whose node equals `n`, from index `i` on.
pub open spec fn first_anchor(e: Seq<(Seq<char>, Node)>, n: Node, i: int) -> Option<Seq<char>>
    decreases e.len() - i,
{
    if i < 0 || i >= e.len() {
        None
    } else if yaml_eq(e[i].1.yaml, n.yaml) {
        Some(e[i].0)
    } else {
        first_anchor(e, n, i + 1)
    }
}

/// The anchor written before a node: `&name ` for the first entry of the visitor whose
/// node equals it.
pub open spec fn anchor_text(e: Seq<(Seq<char>, Node)>, n: Node) -> Seq<char> {
    match first_anchor(e, n, 0) {
        Some(k) => seq!['&'] + k + seq![' '],
        None => Seq::empty(),
    }
}

/// The dump of a node at `level` where it stands (`root`), with the visitor `e`: its
/// anchor, its tag and its data.
pub open spec fn dump_text(n: Node, root: Root, level: nat, e: Seq<(Seq<char>, Node)>) -> Seq<char>
    decreases n, 1nat,
{
    anchor_text(e, n) + tag_text(n) + match n.yaml {
        Yaml::Null => seq!['n', 'u', 'l', 'l'],
        Yaml::Bool(b) => if b {
            seq!['t', 'r', 'u', 'e']
        } else {
            seq!['f', 'a', 'l', 's', 'e']
        },
        Yaml::Int(s) => s@,
        Yaml::Float(s) => s@,
        Yaml::Str(s) => str_text(s@, level),
        Yaml::Alias(a) => seq!['*'] + a@,
        Yaml::Array(x) => (nl() + items_text(x@, level, e, x@.len() as int)).drop_last(),
        Yaml::Mapping(m) => ((if root == Root::Mapping {
            nl()
        } else {
            Seq::empty()
        }) + entries_text(m@, root, level, e, m@.len() as int)).drop_last(),
    }
}

/// The first `i` items of a sequence at `level`: each `- ` and the item, on its own line,
/// indented but for the first at the top.
pub open spec fn items_text(x: Seq<Node>, level: nat, e: Seq<(Seq<char>, Node)>, i: int) -> Seq<char>
    decreases x, 0nat, i,
{
    if i <= 0 || i > x.len() {
        Seq::empty()
    } else {
        items_text(x, level, e, i - 1) + (if i - 1 != 0 || level != 0 {
            indent(level)
        } else {
            Seq::empty()
        }) + seq!['-', ' '] + dump_text(x[i - 1], Root::Array, level + 1, e) + nl()
    }
}

/// The first `i` entries of a map at `level`, each as [`entry_text`] gives it.
pub open spec fn entries_text(
    m: Seq<(Node, Node)>,
    root: Root,
    level: nat,
    e: Seq<(Seq<char>, Node)>,
    i: int,
) -> Seq<char>
    decreases m, 0nat, i,
{
    if i <= 0 || i > m.len() {
        Seq::empty()
    } else {
        entries_text(m, root, level, e, i - 1) + entry_text(m[i - 1], i - 1, root, level, e)
    }
}

/// Entry `j` of a map at `level`: the key, `:`, and the value, on its own line, indented
/// but for the first outside a map.
pub open spec fn entry_text(p: (Node, Node), j: int, root: Root, level: nat, e: Seq<(Seq<char>, Node)>) -> Seq<char>
    decreases p, 2nat,
{
    (if j != 0 || root == Root::Mapping {
        indent(level)
    } else {
        Seq::empty()
    }) + key_text(p.0, level, e) + seq![':'] + value_text(p.1, j, root, level, e) + nl()
}

/// Every item of a sequence but the first of a sequence at the top starts on its own line
/// with the indentation of its level, two spaces a level, and `- `.
pub proof fn lemma_items_indented(x: Seq<Node>, level: nat, e: Seq<(Seq<char>, Node)>, j: int)
    requires
        0 <= j < x.len(),
        j != 0 || level != 0,
    ensures
        ({
            let before = items_text(x, level, e, j);
            let upto = items_text(x, level, e, j + 1);
            &&& upto.len() >= before.len() + 2 * level + 2
            &&& upto.subrange(0, before.len() as int) == before
            &&& upto.subrange(before.len() as int, (before.len() + 2 * level) as int) == Seq::new((2 * level) as nat, |_i: int| ' ')
            &&& upto[(before.len() + 2 * level) as int] == '-' && upto[(before.len() + 2 * level + 1) as int] == ' '
        }),
{
    let before = items_text(x, level, e, j);
    let rest = dump_text(x[j], Root::Array, level + 1, e) + nl();
    let it = indent(level) + seq!['-', ' '] + rest;
    assert(items_text(x, level, e, j + 1) == before + it);
    assert((before + it).subrange(0, before.len() as int) =~= before);
    assert((before + it).subrange(before.len() as int, (before.len() + 2 * level) as int) =~= Seq::new((2 * level) as nat, |_i: int| ' '));
    assert((before + it)[(before.len() + 2 * level) as int] == it[(2 * level) as int]);
    assert((before + it)[(before.len() + 2 * level + 1) as int] == it[(2 * level + 1) as int]);
}

/// Every entry of a map after the first, wherever the map stands (at the top, in a map or
/// as a sequence item), starts with the indentation of its level, two spaces a level, so
/// that it lines up under the first entry.
pub proof fn lemma_later_entries_indented(
    m: Seq<(Node, Node)>,
    root: Root,
    level: nat,
    e: Seq<(Seq<char>, Node)>,
    j: int,
)
    requires
        1 <= j < m.len(),
    ensures
        ({
            let before = entries_text(m, root, level, e, j);
            let upto = entries_text(m, root, level, e, j + 1);
            &&& upto.len() >= before.len() + 2 * level
            &&& upto.subrange(0, before.len() as int) == before
            &&& upto.subrange(before.len() as int, (before.len() + 2 * level) as int) == Seq::new((2 * level) as nat, |_i: int| ' ')
        }),
{
    let before = entries_text(m, root, level, e, j);
    let ent = entry_text(m[j], j, root, level, e);
    assert(entries_text(m, root, level, e, j + 1) == before + ent);
    let rest = key_text(m[j].0, level, e) + seq![':'] + value_text(m[j].1, j, root, level, e) + nl();
    assert(ent =~= indent(level) + rest);
    assert((before + ent).subrange(0, before.len() as int) =~= before);
    assert((before + ent).subrange(before.len() as int, (before.len() + 2 * level) as int) =~= Seq::new((2 * level) as nat, |_i: int| ' '));
}

/// The key of a map entry at `level`: a collection key after `?` and a newline, then a
/// newline and the indentation; any other key as it is.
pub open spec fn key_text(k: Node, level: nat, e: Seq<(Seq<char>, Node)>) -> Seq<char>
    decreases k, 2nat,
{
    if k.yaml is Mapping || k.yaml is Array {
        seq!['?'] + indent(level + 1) + nl() + dump_text(k, Root::Mapping, level + 1, e) + nl() + indent(level)
    } else {
        dump_text(k, Root::Mapping, level + 1, e)
    }
}

/// The value of map entry `j` at `level`: a map or a sequence right after the `:` (a
/// sequence in the first entry of a sequence item at the same level), any other value
/// after a space.
pub open spec fn value_text(v: Node, j: int, root: Root, level: nat, e: Seq<(Seq<char>, Node)>) -> Seq<char>
    decreases v, 2nat,
{
    if v.yaml is Mapping {
        dump_text(v, Root::Mapping, level + 1, e)
    } else if v.yaml is Array && root == Root::Array && j == 0 {
        dump_text(v, Root::Mapping, level, e)
    } else if v.yaml is Array {
        dump_text(v, Root::Mapping, level + 1, e)
    } else {
        seq![' '] + dump_text(v, Root::Mapping, level + 1, e)
    }
}

/// A node can be dumped where it stands: no empty map stands outside a map, and the
/// levels fit in a `usize`.
pub open spec fn dumpable(n: Node, root: Root, level: nat) -> bool
    decreases n,
{
    match n.yaml {
        Yaml::Array(x) => level < usize::MAX && forall|i: int|
            #![trigger x@[i]] 0 <= i < x@.len() ==> dumpable(x@[i], Root::Array, level + 1),
        Yaml::Mapping(m) => level < usize::MAX && (m@.len() > 0 || root == Root::Mapping) && forall|i: int|
            #![trigger m@[i]] 0 <= i < m@.len() ==> dumpable(m@[i].0, Root::Mapping, level + 1) && dumpable(
                m@[i].1,
                Root::Mapping,
                if m@[i].1.yaml is Array && root == Root::Array && i == 0 {
                    level
                } else {
                    level + 1
                },
            ),
        _ => true,
    }
}

/// Checks [`is_white`].
fn is_white_exec(c: char) -> (b: bool)
    ensures
        b == is_white(c),
{
    let u = c as u32;
    (0x09u32 <= u && u <= 0x0du32) || u == 0x20u32 || u == 0x85u32 || u == 0xa0u32 || u == 0x1680u32 || (
    0x2000u32 <= u && u <= 0x200au32) || u == 0x2028u32 || u == 0x2029u32 || u == 0x202fu32 || u == 0x205fu32
        || u == 0x3000u32
}

/// Appends the indentation of a level.
fn push_indent(out: &mut Vec<char>, level: usize)
    ensures
        final(out)@ == old(out)@ + indent(level as nat),
{
    let mut i: usize = 0;
    while i < level
        invariant
            i <= level,
            out@ == old(out)@ + indent(i as nat),
        decreases level - i,
    {
        out.push(' ');
        out.push(' ');
        i = i + 1;
        assert(out@ =~= old(out)@ + indent(i as nat));
    }
}

/// Appends `v[from..to]`.
fn push_range(out: &mut Vec<char>, v: &Vec<char>, from: usize, to: usize)
    requires
        from <= to <= v@.len(),
    ensures
        final(out)@ == old(out)@ + v@.subrange(from as int, to as int),
{
    let mut i: usize = from;
    while i < to
        invariant
            from <= i <= to <= v@.len(),
            out@ == old(out)@ + v@.subrange(from as int, i as int),
        decreases to - i,
    {
        out.push(v[i]);
        i = i + 1;
        assert(out@ =~= old(out)@ + v@.subrange(from as int, i as int));
    }
}

/// The end of `v[from..to]` without its trailing white space.
fn trim_end_at(v: &Vec<char>, from: usize, to: usize) -> (r: usize)
    requires
        from <= to <= v@.len(),
    ensures
        from <= r <= to,
        v@.subrange(from as int, r as int) == trim_end_chars(v@.subrange(from as int, to as int)),
{
    let mut r: usize = to;
    while r > from && is_white_exec(v[r - 1])
        invariant
            from <= r <= to <= v@.len(),
            trim_end_chars(v@.subrange(from as int, r as int)) == trim_end_chars(v@.subrange(from as int, to as int)),
        decreases r - from,
    {
        assert(v@.subrange(from as int, r as int).drop_last() =~= v@.subrange(from as int, r - 1));
        r = r - 1;
    }
    r
}

/// The start of `v` without its leading white space.
fn trim_start_at(v: &Vec<char>) -> (r: usize)
    ensures
        r <= v@.len(),
        v@.subrange(r as int, v@.len() as int) == trim_start_chars(v@),
{
    let mut r: usize = 0;
    assert(v@.subrange(0, v@.len() as int) =~= v@);
    while r < v.len() && is_white_exec(v[r])
        invariant
            r <= v@.len(),
            trim_start_chars(v@.subrange(r as int, v@.len() as int)) == trim_start_chars(v@),
        decreases v@.len() - r,
    {
        assert(v@.subrange(r as int, v@.len() as int).drop_first() =~= v@.subrange(r + 1, v@.len() as int));
        r = r + 1;
    }
    r
}

/// Appends `v` without its leading and trailing white space.
fn push_trimmed(out: &mut Vec<char>, v: &Vec<char>)
    ensures
        final(out)@ == old(out)@ + trim_chars(v@),
{
    let a = trim_start_at(v);
    let b = trim_end_at(v, a, v.len());
    push_range(out, v, a, b);
}

/// Appends the line `v[from..to]` as [`line_text`] gives it.
fn push_line(out: &mut Vec<char>, v: &Vec<char>, from: usize, to: usize, level: usize)
    requires
        from <= to <= v@.len(),
    ensures
        final(out)@ == old(out)@ + line_text(v@.subrange(from as int, to as int), level as nat),
{
    if from < to {
        push_indent(out, level);
        let e = trim_end_at(v, from, to);
        push_range(out, v, from, e);
        assert(out@ =~= old(out)@ + line_text(v@.subrange(from as int, to as int), level as nat));
    } else {
        assert(out@ =~= old(out)@ + line_text(v@.subrange(from as int, to as int), level as nat));
    }
}

/// Appends a string as [`str_text`] says.
fn push_str_text(out: &mut Vec<char>, s: &String, level: usize)
    ensures
        final(out)@ == old(out)@ + str_text(s@, level as nat),
{
    let cs = chars_of(s.as_str());
    let n = cs.len();
    let ghost ls = lines_from(cs@, 0);
    let mut joined: Vec<char> = Vec::new();
    let mut count: usize = 0;
    let mut i: usize = 0;
    let mut done = false;
    while !done
        invariant
            cs@ == s@,
            n == cs@.len(),
            ls == lines_from(cs@, 0),
            i <= n,
            count <= i,
            count <= ls.len(),
            !done ==> lines_from(cs@, i as int) == ls.subrange(count as int, ls.len() as int),
            done ==> count == ls.len(),
            joined@ == join_lines(ls, level as nat, count as int),
        decreases n - i + (if done { 0int } else { 1int }),
    {
        if i == n {
            done = true;
        } else {
            let mut q: usize = i;
            while q < n && cs[q] != '\n'
                invariant
                    i <= q <= n,
                    n == cs@.len(),
                    nl_index(cs@, i as int) == nl_index(cs@, q as int),
                decreases n - q,
            {
                q = q + 1;
            }
            proof {
                lemma_nl_index(cs@, i as int);
                assert(lines_from(cs@, i as int).len() >= 1);
                assert(ls.subrange(count as int, ls.len() as int).len() >= 1);
                assert(lines_from(cs@, i as int)[0] == ls.subrange(count as int, ls.len() as int)[0]);
                assert(lines_from(cs@, i as int)[0] == ls[count as int]);
            }
            let ghost prev = joined@;
            if count > 0 {
                joined.push('\n');
            }
            if q < n {
                let e = if q > i && cs[q - 1] == '\r' { q - 1 } else { q };
                proof {
                    assert(nl_index(cs@, i as int) == Some(q as int));
                    let l = cs@.subrange(i as int, q as int);
                    assert(strip_cr(l) =~= cs@.subrange(i as int, e as int));
                }
                push_line(&mut joined, &cs, i, e, level);
                proof {
                    let rest = lines_from(cs@, q + 1);
                    assert(lines_from(cs@, i as int) == seq![strip_cr(cs@.subrange(i as int, q as int))] + rest);
                    assert(rest =~= ls.subrange(count + 1, ls.len() as int)) by {
                        assert(rest =~= lines_from(cs@, i as int).drop_first());
                    }
                }
                i = q + 1;
            } else {
                push_line(&mut joined, &cs, i, n, level);
                proof {
                    assert(lines_from(cs@, i as int).len() == 1);
                }
                i = n;
                done = true;
            }
            proof {
                if count > 0 {
                    assert(joined@ =~= prev + nl() + line_text(ls[count as int], level as nat));
                }
            }
            count = count + 1;
        }
    }
    if count >= 2 {
        out.push('|');
        out.push('\n');
        push_indent(out, level);
        push_trimmed(out, &joined);
        assert(out@ =~= old(out)@ + str_text(s@, level as nat));
    } else {
        let b = s.as_str().as_bytes();
        let vt = b.len() > 0 && b[0] == 11u8;
        let mut p = Parser::new(b);
        if vt || p.string_plain(0, false).is_err() {
            let d = debug_string(s.as_str());
            crate::text::push_str_chars(out, d.as_str());
        } else {
            crate::text::push_str_chars(out, s.as_str());
        }
    }
}

/// Appends the anchor of a node, as [`anchor_text`] says.
fn push_anchor(out: &mut Vec<char>, n: &Node, m: &Anchors)
    ensures
        final(out)@ == old(out)@ + anchor_text(anchor_entries(*m), *n),
{
    let ghost e = anchor_entries(*m);
    let refs = anchors_iter(m);
    let mut i: usize = 0;
    while i < refs.len()
        invariant
            i <= refs@.len(),
            e == anchor_entries(*m),
            refs@.len() == e.len(),
            forall|k: int| #![trigger refs@[k]] 0 <= k < refs@.len() ==> refs@[k].0@ == e[k].0 && *refs@[k].1 == e[k].1,
            first_anchor(e, *n, 0) == first_anchor(e, *n, i as int),
            out@ == old(out)@,
        decreases refs@.len() - i,
    {
        let (k, v) = refs[i];
        if yaml_equal(&v.yaml, &n.yaml) {
            out.push('&');
            crate::text::push_str_chars(out, k.as_str());
            out.push(' ');
            proof {
                assert(refs@[i as int].0@ == e[i as int].0);
                assert(out@ =~= old(out)@ + anchor_text(e, *n));
            }
            return;
        }
        proof {
            assert(*refs@[i as int].1 == e[i as int].1);
        }
        i = i + 1;
    }
    assert(out@ =~= old(out)@ + anchor_text(e, *n));
}

/// Appends the tag of a node, as [`tag_text`] says.
fn push_tag(out: &mut Vec<char>, n: &Node)
    ensures
        final(out)@ == old(out)@ + tag_text(*n),
{
    let t = n.tag();
    let tc = chars_of(t);
    let prefix: Vec<char> = vec!['t', 'a', 'g', ':', 'y', 'a', 'm', 'l', '.', 'o', 'r', 'g', ',', '2', '0', '0', '2', ':'];
    proof {
        assert(prefix@ =~= tag_prefix_chars());
        assert(t@ == node_tag(*n));
    }
    if tc.len() == 0 {
        assert(out@ =~= old(out)@ + tag_text(*n));
        return;
    }
    if tc.len() >= 18 {
        let mut same = true;
        let mut i: usize = 0;
        while i < 18
            invariant
                i <= 18 <= tc@.len(),
                prefix@ == tag_prefix_chars(),
                same == (forall|k: int| 0 <= k < i ==> tc@[k] == prefix@[k]),
            decreases 18 - i,
        {
            if tc[i] != prefix[i] {
                same = false;
            }
            i = i + 1;
        }
        if same {
            assert(tc@.subrange(0, 18) =~= tag_prefix_chars());
            assert(out@ =~= old(out)@ + tag_text(*n));
            return;
        }
        assert(tc@.subrange(0, 18) != tag_prefix_chars()) by {
            let k = choose|k: int| 0 <= k < 18 && tc@[k] != prefix@[k];
            assert(tc@.subrange(0, 18)[k] != tag_prefix_chars()[k]);
        }
    }
    let b = t.as_bytes();
    proof {
        assert(encode_utf8(t@).len() > 0);
    }
    let mut p = Parser::new(b);
    if p.identifier().is_ok() {
        out.push('!');
        push_range(out, &tc, 0, tc.len());
        out.push(' ');
    } else {
        out.push('!');
        out.push('<');
        push_range(out, &tc, 0, tc.len());
        out.push('>');
        out.push(' ');
    }
    proof {
        assert(tc@.subrange(0, tc@.len() as int) =~= tc@);
    }
    assert(out@ =~= old(out)@ + tag_text(*n));
}

/// Appends the dump of a node, as [`dump_text`] says.
#[verifier::rlimit(80)]
fn dump_into(n: &Node, root: Root, level: usize, m: &Anchors, out: &mut Vec<char>)
    requires
        dumpable(*n, root, level as nat),
    ensures
        final(out)@ == old(out)@ + dump_text(*n, root, level as nat, anchor_entries(*m)),
    decreases n, 0nat,
{
    let ghost e = anchor_entries(*m);
    push_anchor(out, n, m);
    push_tag(out, n);
    let ghost pre = out@;
    match &n.yaml {
        Yaml::Null => {
            out.push('n');
            out.push('u');
            out.push('l');
            out.push('l');
        },
        Yaml::Bool(b) => {
            if *b {
                out.push('t');
                out.push('r');
                out.push('u');
                out.push('e');
            } else {
                out.push('f');
                out.push('a');
                out.push('l');
                out.push('s');
                out.push('e');
            }
        },
        Yaml::Int(s) => {
            crate::text::push_str_chars(out, s.as_str());
        },
        Yaml::Float(s) => {
            crate::text::push_str_chars(out, s.as_str());
        },
        Yaml::Str(s) => {
            push_str_text(out, s, level);
        },
        Yaml::Alias(a) => {
            out.push('*');
            crate::text::push_str_chars(out, a.as_str());
        },
        Yaml::Array(x) => {
            out.push('\n');
            let mut i: usize = 0;
            while i < x.len()
                invariant
                    i <= x@.len(),
                    n.yaml == Yaml::Array(*x),
                    e == anchor_entries(*m),
                    dumpable(*n, root, level as nat),
                    out@ == pre + nl() + items_text(x@, level as nat, e, i as int),
                decreases x@.len() - i,
            {
                assert(decreases_to!(n => n.yaml));
                assert(decreases_to!(n.yaml => n.yaml->Array_0));
                assert(decreases_to!(*x => x@));
                assert(decreases_to!(x@ => x@[i as int]));
                let ghost before = out@;
                if i != 0 || level != 0 {
                    push_indent(out, level);
                }
                out.push('-');
                out.push(' ');
                assert(dumpable(x@[i as int], Root::Array, (level + 1) as nat));
                dump_into(&x[i], Root::Array, level + 1, m, out);
                out.push('\n');
                proof {
                    assert(out@ =~= before + (if i != 0 || level != 0 {
                        indent(level as nat)
                    } else {
                        Seq::empty()
                    }) + seq!['-', ' '] + dump_text(x@[i as int], Root::Array, (level + 1) as nat, e) + nl());
                }
                i = i + 1;
            }
            let _ = out.pop();
            proof {
                let t = nl() + items_text(x@, level as nat, e, x@.len() as int);
                assert(out@ =~= pre + t.drop_last());
            }
        },
        Yaml::Mapping(x) => {
            if root == Root::Mapping {
                out.push('\n');
            }
            let ghost head = if root == Root::Mapping {
                nl()
            } else {
                Seq::<char>::empty()
            };
            let mut i: usize = 0;
            while i < x.len()
                invariant
                    i <= x@.len(),
                    n.yaml == Yaml::Mapping(*x),
                    e == anchor_entries(*m),
                    dumpable(*n, root, level as nat),
                    head == (if root == Root::Mapping {
                        nl()
                    } else {
                        Seq::<char>::empty()
                    }),
                    out@ == pre + head + entries_text(x@, root, level as nat, e, i as int),
                decreases x@.len() - i,
            {
                assert(decreases_to!(n => n.yaml));
                assert(decreases_to!(n.yaml => n.yaml->Mapping_0));
                assert(decreases_to!(*x => x@));
                assert(decreases_to!(x@ => x@[i as int]));
                assert(decreases_to!(x@[i as int] => x@[i as int].0));
                assert(decreases_to!(x@[i as int] => x@[i as int].1));
                let ghost before = out@;
                proof {
                    assert(dumpable(x@[i as int].0, Root::Mapping, (level + 1) as nat));
                }
                push_entry(&x[i], i, root, level, m, out);
                i = i + 1;
            }
            let _ = out.pop();
            proof {
                let t = head + entries_text(x@, root, level as nat, e, x@.len() as int);
                if x@.len() > 0 {
                    let l = x@.len() as int;
                    assert(entries_text(x@, root, level as nat, e, l) == entries_text(x@, root, level as nat, e, l - 1)
                        + entry_text(x@[l - 1], l - 1, root, level as nat, e));
                    assert(entry_text(x@[l - 1], l - 1, root, level as nat, e).len() > 0);
                }
                assert(t.len() > 0);
                assert(out@ =~= pre + t.drop_last());
            }
        },
    }
}

/// Appends entry `j` of a map, as [`entry_text`] says.
fn push_entry(p: &(Node, Node), j: usize, root: Root, level: usize, m: &Anchors, out: &mut Vec<char>)
    requires
        level < usize::MAX,
        dumpable(p.0, Root::Mapping, (level + 1) as nat),
        dumpable(p.1, Root::Mapping, if p.1.yaml is Array && root == Root::Array && j == 0 {
            level as nat
        } else {
            (level + 1) as nat
        }),
    ensures
        final(out)@ == old(out)@ + entry_text(*p, j as int, root, level as nat, anchor_entries(*m)),
    decreases p, 2nat,
{
    let ghost e = anchor_entries(*m);
    assert(decreases_to!(*p => p.0));
    assert(decreases_to!(*p => p.1));
    if j != 0 || root == Root::Mapping {
        push_indent(out, level);
    }
    push_key(&p.0, level, m, out);
    out.push(':');
    push_value(&p.1, j, root, level, m, out);
    out.push('\n');
    assert(out@ =~= old(out)@ + entry_text(*p, j as int, root, level as nat, e));
}

/// Appends the key of a map entry, as [`key_text`] says.
fn push_key(k: &Node, level: usize, m: &Anchors, out: &mut Vec<char>)
    requires
        level < usize::MAX,
        dumpable(*k, Root::Mapping, (level + 1) as nat),
    ensures
        final(out)@ == old(out)@ + key_text(*k, level as nat, anchor_entries(*m)),
    decreases k, 1nat,
{
    match &k.yaml {
        Yaml::Mapping(_) | Yaml::Array(_) => {
            out.push('?');
            push_indent(out, level + 1);
            out.push('\n');
            dump_into(k, Root::Mapping, level + 1, m, out);
            out.push('\n');
            push_indent(out, level);
        },
        _ => {
            dump_into(k, Root::Mapping, level + 1, m, out);
        },
    }
    assert(out@ =~= old(out)@ + key_text(*k, level as nat, anchor_entries(*m)));
}

/// Appends the value of map entry `j`, as [`value_text`] says.
fn push_value(v: &Node, j: usize, root: Root, level: usize, m: &Anchors, out: &mut Vec<char>)
    requires
        level < usize::MAX,
        dumpable(*v, Root::Mapping, if v.yaml is Array && root == Root::Array && j == 0 {
            level as nat
        } else {
            (level + 1) as nat
        }),
    ensures
        final(out)@ == old(out)@ + value_text(*v, j as int, root, level as nat, anchor_entries(*m)),
    decreases v, 1nat,
{
    match &v.yaml {
        Yaml::Mapping(_) => {
            dump_into(v, Root::Mapping, level + 1, m, out);
        },
        Yaml::Array(_) => {
            if root == Root::Array && j == 0 {
                dump_into(v, Root::Mapping, level, m, out);
            } else {
                dump_into(v, Root::Mapping, level + 1, m, out);
            }
        },
        _ => {
            out.push(' ');
            dump_into(v, Root::Mapping, level + 1, m, out);
        },
    }
    assert(out@ =~= old(out)@ + value_text(*v, j as int, root, level as nat, anchor_entries(*m)));
}

/// Dumper for nodes.
pub struct Dumper<'a> {
    node: &'a Node,
    root: Root,
    level: usize,
    anchors: &'a Anchors,
}

impl<'a> Dumper<'a> {
    /// The node to dump.
    pub closed spec fn dumped_node(&self) -> Node {
        *self.node
    }

    /// Where the node stands.
    pub closed spec fn dumped_root(&self) -> Root {
        self.root
    }

    /// The level of the node.
    pub closed spec fn dumped_level(&self) -> nat {
        self.level as nat
    }

    /// The entries of the visitor.
    pub closed spec fn dumped_anchors(&self) -> Seq<(Seq<char>, Node)> {
        anchor_entries(*self.anchors)
    }

    /// Creates the dumper of a node at the top, with a visitor of anchors.
    pub fn new(node: &'a Node, anchors: &'a Anchors) -> (d: Self)
        ensures
            d.dumped_node() == *node,
            d.dumped_root() == Root::Scalar,
            d.dumped_level() == 0,
            d.dumped_anchors() == anchor_entries(*anchors),
    {
        Dumper { node, root: Root::Scalar, level: 0, anchors }
    }

    /// Dumps into a string, as [`dump_text`] says.
    pub fn dump(&self) -> (s: String)
        requires
            dumpable(self.dumped_node(), self.dumped_root(), self.dumped_level()),
        ensures
            s@ == dump_text(self.dumped_node(), self.dumped_root(), self.dumped_level(), self.dumped_anchors()),
    {
        let mut out: Vec<char> = Vec::new();
        dump_into(self.node, self.root, self.level, self.anchors, &mut out);
        assert(out@ =~= dump_text(*self.node, self.root, self.level as nat, anchor_entries(*self.anchors)));
        crate::text::string_of(&out)
    }
}

/// The entries of the visitor of document `i`, none where there is no visitor.
pub open spec fn doc_anchors(anchors: Seq<Anchors>, i: int) -> Seq<(Seq<char>, Node)> {
    if 0 <= i < anchors.len() {
        anchor_entries(anchors[i])
    } else {
        Seq::empty()
    }
}

/// Document `i` of a dump: the node and a newline, after `---` and a newline (and
/// without leading white space) but for the first.
pub open spec fn doc_text(nodes: Seq<Node>, anchors: Seq<Anchors>, i: int) -> Seq<char> {
    let d = dump_text(nodes[i], Root::Scalar, 0, doc_anchors(anchors, i)) + nl();
    if i == 0 {
        d
    } else {
        seq!['-', '-', '-'] + nl() + trim_start_chars(d)
    }
}

/// The first `k` documents of a dump.
pub open spec fn docs_text(nodes: Seq<Node>, anchors: Seq<Anchors>, k: int) -> Seq<char>
    decreases k,
{
    if k <= 0 {
        Seq::empty()
    } else {
        docs_text(nodes, anchors, k - 1) + doc_text(nodes, anchors, k - 1)
    }
}

/// Dumps the YAML data in block format: the documents one after the other, separated by
/// `---`, each with its visitor of anchors where there is one.
///
/// Strings of several lines are written as literal blocks, trimmed at the end; strings
/// that read back plain are written plain, the others quoted.
pub fn dump(nodes: &[Node], anchors: &[Anchors]) -> (s: String)
    requires
        forall|i: int| 0 <= i < nodes@.len() ==> dumpable(#[trigger] nodes@[i], Root::Scalar, 0),
    ensures
        s@ == docs_text(nodes@, anchors@, nodes@.len() as int),
{
    let empty = crate::anchors::anchors_new();
    let mut out: Vec<char> = Vec::new();
    let mut i: usize = 0;
    while i < nodes.len()
        invariant
            i <= nodes@.len(),
            anchor_entries(empty) == Seq::<(Seq<char>, Node)>::empty(),
            forall|k: int| 0 <= k < nodes@.len() ==> dumpable(#[trigger] nodes@[k], Root::Scalar, 0),
            out@ == docs_text(nodes@, anchors@, i as int),
        decreases nodes@.len() - i,
    {
        let m = if i < anchors.len() {
            &anchors[i]
        } else {
            &empty
        };
        assert(anchor_entries(*m) == doc_anchors(anchors@, i as int));
        let mut d: Vec<char> = Vec::new();
        assert(dumpable(nodes@[i as int], Root::Scalar, 0));
        dump_into(&nodes[i], Root::Scalar, 0, m, &mut d);
        d.push('\n');
        let ghost before = out@;
        if i == 0 {
            push_range(&mut out, &d, 0, d.len());
        } else {
            out.push('-');
            out.push('-');
            out.push('-');
            out.push('\n');
            let a = trim_start_at(&d);
            push_range(&mut out, &d, a, d.len());
        }
        proof {
            let dd = dump_text(nodes@[i as int], Root::Scalar, 0, doc_anchors(anchors@, i as int)) + nl();
            assert(d@ =~= dd);
            assert(d@.subrange(0, d@.len() as int) =~= d@);
            if i == 0 {
                assert(out@ =~= before + dd);
            } else {
                assert(out@ =~= before + (seq!['-', '-', '-'] + nl() + trim_start_chars(dd)));
            }
            assert(out@ =~= before + doc_text(nodes@, anchors@, i as int));
        }
        i = i + 1;
    }
    crate::text::string_of(&out)
}

/// Checks [`dumpable`].
pub fn is_dumpable(n: &Node, root: Root, level: usize) -> (b: bool)
    ensures
        b == dumpable(*n, root, level as nat),
    decreases n,
{
    match &n.yaml {
        Yaml::Array(x) => {
            if level == usize::MAX {
                return false;
            }
            let mut i: usize = 0;
            while i < x.len()
                invariant
                    i <= x@.len(),
                    level < usize::MAX,
                    n.yaml == Yaml::Array(*x),
                    forall|k: int| 0 <= k < i ==> dumpable(#[trigger] x@[k], Root::Array, (level + 1) as nat),
                decreases x@.len() - i,
            {
                assert(decreases_to!(n => n.yaml));
                assert(decreases_to!(n.yaml => n.yaml->Array_0));
                assert(decreases_to!(*x => x@));
                assert(decreases_to!(x@ => x@[i as int]));
                if !is_dumpable(&x[i], Root::Array, level + 1) {
                    return false;
                }
                i = i + 1;
            }
            true
        },
        Yaml::Mapping(x) => {
            if level == usize::MAX {
                return false;
            }
            if x.len() == 0 && root != Root::Mapping {
                return false;
            }
            let mut i: usize = 0;
            while i < x.len()
                invariant
                    i <= x@.len(),
                    level < usize::MAX,
                    n.yaml == Yaml::Mapping(*x),
                    forall|k: int|
                        #![trigger x@[k]]
                        0 <= k < i ==> dumpable(x@[k].0, Root::Mapping, (level + 1) as nat) && dumpable(
                            x@[k].1,
                            Root::Mapping,
                            if x@[k].1.yaml is Array && root == Root::Array && k == 0 {
                                level as nat
                            } else {
                                (level + 1) as nat
                            },
                        ),
                decreases x@.len() - i,
            {
                assert(decreases_to!(n => n.yaml));
                assert(decreases_to!(n.yaml => n.yaml->Mapping_0));
                assert(decreases_to!(*x => x@));
                assert(decreases_to!(x@ => x@[i as int]));
                assert(decreases_to!(x@[i as int] => x@[i as int].0));
                assert(decreases_to!(x@[i as int] => x@[i as int].1));
                if !is_dumpable(&x[i].0, Root::Mapping, level + 1) {
                    return false;
                }
                let is_seq = match &x[i].1.yaml {
                    Yaml::Array(_) => true,
                    _ => false,
                };
                let lv = if is_seq && root == Root::Array && i == 0 {
                    level
                } else {
                    level + 1
                };
                if !is_dumpable(&x[i].1, Root::Mapping, lv) {
                    return false;
                }
                i = i + 1;
            }
            true
        },
        _ => true,
    }
}

} // verus!
