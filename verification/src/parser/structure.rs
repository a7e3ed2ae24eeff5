//! The structure of YAML: scalars with their anchors and tags, block and flow sequences and
//! maps, documents.
use super::base::TakeOpt;
use super::base::is_prefix_at;
use super::grammar::{
    blank_end, blank_rest, bound_at, float_end, gap_lines, gap_ok, is_alnum, is_space, levels_set, num_end, sci_end, space_end,
    spaces_at, sum_widths,
};
use super::strings::{doc_marker_at, plain_start, plain_stop};
use super::{PError, PResult, Parser};
use crate::anchors::{anchor_entries, anchored, key_index, key_index_last, anchors_get, anchors_insert, lemma_insert_values};
use crate::text::bytes_equal;
use crate::yaml::{
    alias_free, lemma_array_alias_free, lemma_map_insert_keeps, lemma_mapping_alias_free, map_insert, node_copy,
    node_same, yaml_copy, yaml_view, Node, Yaml,
};
use vstd::prelude::*;
use vstd::string::StringExecFns;
use vstd::string::StringSliceAdditionalSpecFns;
use vstd::string::StrSliceExecFns;
use vstd::utf8::{decode_utf8, decode_utf8_encode_utf8, encode_utf8, valid_utf8};

verus! {

/// A plain word runs from `p` to the end of the document: a letter, then letters and
/// digits.
pub open spec fn word_rest(d: Seq<u8>, p: int) -> bool {
    &&& 0 <= p < d.len()
    &&& (65 <= d[p] <= 90 || 97 <= d[p] <= 122)
    &&& forall|i: int| p <= i < d.len() ==> is_alnum(#[trigger] d[i])
}

/// No flow scalar starts at `p`: the document ends, or white space, a comment sign or a
/// closing bracket stands there.
pub open spec fn no_scalar_at(d: Seq<u8>, p: int) -> bool {
    p == d.len() || (0 <= p < d.len() && (is_space(d[p]) || d[p] == 35u8 || d[p] == 93u8 || d[p] == 125u8))
}

/// Where the run of letters and digits from `p` ends.
pub open spec fn word_end(d: Seq<u8>, p: int) -> int {
    super::grammar::run_end(d, p, 5)
}

/// A plain key starts at `p`: a letter, then letters and digits, then `: `.
pub open spec fn key_at(d: Seq<u8>, p: int) -> bool {
    let c = word_end(d, p);
    &&& 0 <= p < d.len()
    &&& (65 <= d[p] <= 90 || 97 <= d[p] <= 122)
    &&& c + 1 < d.len() && d[c] == 58u8 && d[c + 1] == 32u8
}

/// A plain key is a plain string that stops at its `:`.
proof fn lemma_key_plain(d: Seq<u8>, p: int, i: int, inner: bool)
    requires
        key_at(d, p),
        p <= i <= word_end(d, p),
    ensures
        plain_start(d, p, inner),
        d[p] != 11u8,
        plain_stop(d, p, i, inner) == word_end(d, p),
    decreases d.len() - i,
{
    super::grammar::lemma_run_end_props(d, p, 5);
    if i < word_end(d, p) {
        assert(is_alnum(d[i]));
        lemma_key_plain(d, p, i + 1, inner);
    }
}

/// The document ends at `p`, or a closing bracket stands there: no node starts there.
pub open spec fn closing_at(d: Seq<u8>, p: int) -> bool {
    p == d.len() || (0 <= p < d.len() && (d[p] == 93u8 || d[p] == 125u8))
}

/// `y` is the data of the plain word that runs from `p` to the end of the document.
pub open spec fn word_yaml(d: Seq<u8>, p: int, y: Yaml) -> bool {
    exists|s: String| s@ == crate::text::lossy_text(#[trigger] d.subrange(p, d.len() as int)) && keyword_yaml(s, y)
}

/// `y` is the data of the plain word that runs from `p` to `c`.
pub open spec fn word_yaml_to(d: Seq<u8>, p: int, c: int, y: Yaml) -> bool {
    exists|s: String| s@ == crate::text::lossy_text(#[trigger] d.subrange(p, c)) && keyword_yaml(s, y)
}

/// A plain word starts at `p` in a flow: a letter, then letters and digits, then a flow
/// indicator.
pub open spec fn flow_word_at(d: Seq<u8>, p: int) -> bool {
    let c = word_end(d, p);
    &&& 0 <= p < d.len()
    &&& (65 <= d[p] <= 90 || 97 <= d[p] <= 122)
    &&& c < d.len() && super::strings::flow_sym(d[c])
}

/// Where a flow item that is a plain word or a number, starting at `a`, ends.
pub open spec fn flow_item_end(d: Seq<u8>, a: int) -> Option<int> {
    if flow_word_at(d, a) {
        Some(word_end(d, a))
    } else if num_flow_at(d, a) {
        Some(num_end(d, a)->0)
    } else {
        None
    }
}

/// `y` is the data of the flow item from `a` to `c`: the integer where it starts with a
/// digit, else the plain word.
pub open spec fn flow_item_yaml(d: Seq<u8>, a: int, c: int, y: Yaml) -> bool {
    if super::grammar::is_digit_byte(d[a]) {
        num_yaml(d, a, y)
    } else {
        word_yaml_to(d, a, c, y)
    }
}

/// The items of a flow sequence of plain words and numbers, from `i` (after `[` or a `,`):
/// each item is white space and a word or a number, followed by `,` or `]`; a `]` after
/// white space ends the list, so that a trailing `,` adds no item. Gives where each item
/// starts and ends, and the position after the `]`.
pub open spec fn flow_words(d: Seq<u8>, i: int) -> Option<(Seq<(int, int)>, int)>
    decreases d.len() - i,
{
    let a = space_end(d, i);
    if i < 0 || a < i {
        None
    } else if a < d.len() && d[a] == 93u8 {
        Some((seq![], a + 1))
    } else {
        match flow_item_end(d, a) {
            Some(c) => if c < d.len() && d[c] == 44u8 && i < c + 1 <= d.len() {
                match flow_words(d, c + 1) {
                    Some((w, e)) => Some((seq![(a, c)] + w, e)),
                    None => None,
                }
            } else if c < d.len() && d[c] == 93u8 {
                Some((seq![(a, c)], c + 1))
            } else {
                None
            },
            None => None,
        }
    }
}

/// The words that [`flow_words`] found.
pub open spec fn words_of(o: Option<(Seq<(int, int)>, int)>) -> Seq<(int, int)> {
    match o {
        Some((w, _)) => w,
        None => seq![],
    }
}

/// Where the list that [`flow_words`] read ends.
pub open spec fn words_end(o: Option<(Seq<(int, int)>, int)>) -> int {
    match o {
        Some((_, e)) => e,
        None => 0,
    }
}

/// A flow word is a plain string that stops at the flow indicator.
proof fn lemma_flow_plain(d: Seq<u8>, p: int, i: int)
    requires
        flow_word_at(d, p),
        p <= i <= word_end(d, p),
    ensures
        plain_start(d, p, true),
        d[p] != 11u8,
        plain_stop(d, p, i, true) == word_end(d, p),
    decreases d.len() - i,
{
    super::grammar::lemma_run_end_props(d, p, 5);
    if i < word_end(d, p) {
        assert(is_alnum(d[i]));
        lemma_flow_plain(d, p, i + 1);
    }
}

/// An alias `*name` runs from `p` to the end of the document.
pub open spec fn alias_rest(d: Seq<u8>, p: int) -> bool {
    0 <= p && p + 1 < d.len() && d[p] == 42u8 && is_alnum(d[p + 1]) && super::grammar::run_end(d, p + 1, 7) == d.len()
}

/// The name of the alias at `p` that runs to the end.
pub open spec fn alias_name(d: Seq<u8>, p: int) -> Seq<char> {
    crate::text::lossy_text(d.subrange(p + 1, d.len() as int))
}

/// What the alias `name` gives: itself where aliases are kept, else the data anchored under
/// the name, else the `anchor` error.
pub open spec fn alias_outcome(keep: bool, m: crate::anchors::Anchors, name: Seq<char>, r: PResult<Yaml>) -> bool {
    if keep {
        r matches Ok(Yaml::Alias(a)) && a@ == name
    } else {
        match anchored(m, name) {
            Some(a) => r matches Ok(y) && crate::yaml::yaml_same(y, a.yaml),
            None => r matches Err(PError::Terminate { name: nm, .. }) && nm@ == "anchor"@,
        }
    }
}

/// The data of a parsed node, or the error.
pub open spec fn node_data(r: PResult<Node>) -> PResult<Yaml> {
    match r {
        Ok(n) => Ok(n.yaml),
        Err(e) => Err(e),
    }
}

/// A number of digits runs from `p` to the end of its line.
pub open spec fn num_line_at(d: Seq<u8>, p: int) -> bool {
    &&& 0 <= p < d.len()
    &&& super::grammar::is_digit_byte(d[p])
    &&& num_end(d, p) matches Some(e) && (e == d.len() || super::grammar::is_nl(d[e]))
}

/// A number of digits stands at `p` in a flow, followed by `:`, `,`, `]` or `}`.
pub open spec fn num_flow_at(d: Seq<u8>, p: int) -> bool {
    &&& 0 <= p < d.len()
    &&& super::grammar::is_digit_byte(d[p])
    &&& num_end(d, p) matches Some(e) && e < d.len() && (d[e] == 58u8 || d[e] == 44u8 || d[e] == 93u8 || d[e] == 125u8)
}

/// `y` is the integer whose text runs from `p` to the end of the number there.
pub open spec fn num_yaml(d: Seq<u8>, p: int, y: Yaml) -> bool {
    y matches Yaml::Int(s) && s@ == crate::text::lossy_text(d.subrange(p, num_end(d, p)->0))
}

/// A block sequence item stands at `i`: `- ` and a value that ends its line, a number or a
/// plain word that does not go on at the indentations `wi1` and `wi2` of the items' values.
/// Gives where the value starts and ends.
pub open spec fn seq_item(d: Seq<u8>, i: int, wi1: int, wi2: int) -> Option<(int, int)> {
    let b = blank_end(d, i + 1);
    if 0 <= i && i + 1 < d.len() && d[i] == 45u8 && d[i + 1] == 32u8
        && (num_line_at(d, b) || (word_line_at(d, b, wi1) && word_line_at(d, b, wi2))) {
        Some((b, kv_val_end(d, b)))
    } else {
        None
    }
}

/// The items of a block sequence after an item that ends at `e`, the items indented by `w`
/// spaces: the sequence ends where only blanks and a comment are left, where the next line
/// is the end, a document marker, not so indented, or no item; else a gap leads to the next
/// item. Gives where each value starts and ends, and where the sequence ends; `None` where
/// these shapes do not cover the text.
pub open spec fn seq_more(d: Seq<u8>, e: int, w: int, wi1: int, wi2: int) -> Option<(Seq<(int, int)>, int)>
    decreases d.len() - e,
{
    if blank_rest(d, e) {
        Some((seq![], e))
    } else if !gap_ok(d, e, true) {
        None
    } else {
        let f = gap_lines(d, e, true).1;
        if f == d.len() || doc_marker_at(d, f) || !spaces_at(d, f, w) || !(f + w < d.len() && d[f + w] == 45u8) {
            Some((seq![], e))
        } else {
            match seq_item(d, f + w, wi1, wi2) {
                Some((a, e2)) => if e < e2 <= d.len() {
                    match seq_more(d, e2, w, wi1, wi2) {
                        Some((rest, end)) => Some((seq![(a, e2)] + rest, end)),
                        None => None,
                    }
                } else {
                    None
                },
                None => None,
            }
        }
    }
}

/// The items of a block sequence of numbers and plain words that starts at `i`, see
/// [`seq_more`].
pub open spec fn seq_items(d: Seq<u8>, i: int, w: int, wi1: int, wi2: int) -> Option<(Seq<(int, int)>, int)> {
    match seq_item(d, i, wi1, wi2) {
        Some((a, e)) => match seq_more(d, e, w, wi1, wi2) {
            Some((rest, end)) => Some((seq![(a, e)] + rest, end)),
            None => None,
        },
        None => None,
    }
}

/// The items of a block sequence that starts at `p` at the level `level`, the indentations
/// being `ind`: the items at the indentation of the level, their values at the indentations
/// that the values' level gets.
pub open spec fn seq_items_at(d: Seq<u8>, p: int, ind: Seq<usize>, level: int) -> Option<(Seq<(int, int)>, int)> {
    seq_items(d, p, sum_widths(levels_set(ind, level), level + 1), sum_widths(levels_set(ind, level + 2), level + 3),
        sum_widths(levels_set(levels_set(ind, level), level + 2), level + 3))
}

/// The items of a block sequence at the root that starts at `p`, see [`seq_items`].
pub open spec fn seq_root(d: Seq<u8>, p: int) -> Option<(Seq<(int, int)>, int)> {
    seq_items(d, p, 0, 4, 4)
}

/// A block map entry stands at `i`: a plain key, `: `, and a number to the end of its line.
/// Gives where the key starts and ends, and where the number starts.
pub open spec fn kv_item(d: Seq<u8>, i: int) -> Option<(int, int, int)> {
    let c = word_end(d, i);
    if key_at(d, i) && num_line_at(d, blank_end(d, c + 1)) {
        Some((i, c, blank_end(d, c + 1)))
    } else {
        None
    }
}

/// Where the value of a block map entry that starts at `b` ends: the number, or the plain
/// word.
pub open spec fn kv_val_end(d: Seq<u8>, b: int) -> int {
    if super::grammar::is_digit_byte(d[b]) { num_end(d, b)->0 } else { word_end(d, b) }
}

/// `y` is the value of a block map entry that starts at `b`: the integer, or what the plain
/// word stands for.
pub open spec fn kv_val_yaml(d: Seq<u8>, b: int, y: Yaml) -> bool {
    if super::grammar::is_digit_byte(d[b]) {
        num_yaml(d, b, y)
    } else {
        plain_yaml(d.subrange(b, word_end(d, b)), y)
    }
}

/// A block map entry stands at `i`: a plain key, `: `, and a value that ends its line, a
/// number or a plain word that does not go on at the indentations `wv1` and `wv2` of the
/// values. Gives where the key starts and ends, and where the value starts.
pub open spec fn kv_entry(d: Seq<u8>, i: int, wv1: int, wv2: int) -> Option<(int, int, int)> {
    let c = word_end(d, i);
    let b = blank_end(d, c + 1);
    if key_at(d, i) && (num_line_at(d, b) || (word_line_at(d, b, wv1) && word_line_at(d, b, wv2))) {
        Some((i, c, b))
    } else {
        None
    }
}

/// The entries of a block map after an entry that ends at `e`, the entries indented by `w`
/// spaces, as [`seq_more`] reads the items of a sequence; `None` where these shapes do not
/// cover the text.
pub open spec fn kv_more(d: Seq<u8>, e: int, w: int, wv1: int, wv2: int) -> Option<(Seq<(int, int, int)>, int)>
    decreases d.len() - e,
{
    if blank_rest(d, e) {
        Some((seq![], e))
    } else if !gap_ok(d, e, true) {
        None
    } else {
        let f = gap_lines(d, e, true).1;
        if f == d.len() || doc_marker_at(d, f) || !spaces_at(d, f, w) {
            Some((seq![], e))
        } else {
            match kv_entry(d, f + w, wv1, wv2) {
                Some((a, c, b)) => if e < kv_val_end(d, b) <= d.len() {
                    match kv_more(d, kv_val_end(d, b), w, wv1, wv2) {
                        Some((rest, end)) => Some((seq![(a, c, b)] + rest, end)),
                        None => None,
                    }
                } else {
                    None
                },
                None => None,
            }
        }
    }
}

/// The entries of a block map of numbers and plain words that starts at `i`, see
/// [`kv_more`].
pub open spec fn kv_items(d: Seq<u8>, i: int, w: int, wv1: int, wv2: int) -> Option<(Seq<(int, int, int)>, int)> {
    match kv_entry(d, i, wv1, wv2) {
        Some((a, c, b)) => match kv_more(d, kv_val_end(d, b), w, wv1, wv2) {
            Some((rest, end)) => Some((seq![(a, c, b)] + rest, end)),
            None => None,
        },
        None => None,
    }
}

/// A block map entry of a number stands at `p`, and the next line, indented by `w` spaces,
/// is a plain word to the end of the document: a key without `:`.
pub open spec fn map_split_at(d: Seq<u8>, p: int, w: int) -> bool {
    kv_item(d, p) matches Some((a, c, b)) && {
        let e = num_end(d, b)->0;
        !blank_rest(d, e) && gap_ok(d, e, true) && {
            let f = gap_lines(d, e, true).1;
            f < d.len() && !doc_marker_at(d, f) && spaces_at(d, f, w) && word_rest(d, f + w)
        }
    }
}

/// A block map entry of a plain word stands at `p`, its value ending its line at the
/// indentation `wv` of the values, and the next line, indented by `w` spaces, is a plain
/// word to the end of the document: a key without `:`.
pub open spec fn map_split_word_at(d: Seq<u8>, p: int, w: int, wv: int) -> bool {
    let b = blank_end(d, word_end(d, p) + 1);
    key_at(d, p) && word_line_at(d, b, wv) && {
        let e = word_end(d, b);
        !blank_rest(d, e) && gap_ok(d, e, true) && {
            let f = gap_lines(d, e, true).1;
            f < d.len() && !doc_marker_at(d, f) && spaces_at(d, f, w) && word_rest(d, f + w)
        }
    }
}

/// The entries that [`kv_items`] found.
pub open spec fn kv_of(o: Option<(Seq<(int, int, int)>, int)>) -> Seq<(int, int, int)> {
    match o {
        Some((w, _)) => w,
        None => seq![],
    }
}

/// Where the map that [`kv_items`] read ends.
pub open spec fn kv_end(o: Option<(Seq<(int, int, int)>, int)>) -> int {
    match o {
        Some((_, e)) => e,
        None => 0,
    }
}

/// `m` is the map of the entries `items` of a block map: inserted in order, each key the
/// plain word of its entry and each value the value of its entry.
pub open spec fn kv_map(d: Seq<u8>, items: Seq<(int, int, int)>, m: Seq<(Node, Node)>) -> bool {
    exists|ks: Seq<Node>, vs: Seq<Node>| #[trigger] crate::yaml::map_of(ks, vs) == m && ks.len() == items.len() && vs.len() == items.len()
        && forall|i: int| 0 <= i < items.len() ==> word_yaml_to(d, items[i].0, items[i].1, #[trigger] ks[i].yaml) && kv_val_yaml(d, items[i].2, vs[i].yaml)
}

/// `y` is the sequence of the values that [`seq_items`] found.
pub open spec fn seq_yaml(d: Seq<u8>, ni: Option<(Seq<(int, int)>, int)>, y: Yaml) -> bool {
    y matches Yaml::Array(v) && v@.len() == words_of(ni).len()
        && forall|k: int| 0 <= k < v@.len() ==> kv_val_yaml(d, words_of(ni)[k].0, #[trigger] v@[k].yaml)
}

/// Only a gap is left from `e` to the end of the document.
pub open spec fn gap_to_end(d: Seq<u8>, e: int) -> bool {
    e == d.len() || (gap_ok(d, e, true) && gap_lines(d, e, true).1 == d.len())
}

/// A block sequence (see [`seq_root`]) at the root starts at `p` and only a gap follows it.
pub open spec fn seq_doc(d: Seq<u8>, p: int) -> bool {
    seq_root(d, p) is Some && gap_to_end(d, words_end(seq_root(d, p)))
}

/// Where the blank lines and comments from `e` end, if any.
pub open spec fn gap_end(d: Seq<u8>, e: int) -> int {
    if gap_ok(d, e, true) { gap_lines(d, e, true).1 } else { e }
}

/// A block sequence (see [`seq_root`]) at the root starts at `p`, and no `...` follows it.
pub open spec fn seq_first_doc(d: Seq<u8>, p: int) -> bool {
    seq_root(d, p) is Some && !is_prefix_at(d, gap_end(d, words_end(seq_root(d, p))), seq![46u8, 46u8, 46u8])
}

/// The first document is a block sequence (see [`seq_root`]), and after it and a gap stands text
/// that does not start a new document with `---`.
pub open spec fn seq_doc_unsplit(d: Seq<u8>, p: int) -> bool {
    let f = gap_end(d, words_end(seq_root(d, p)));
    seq_first_doc(d, p) && f < d.len() && !is_prefix_at(d, f, seq![45u8, 45u8, 45u8])
}

/// Where the root node of the first document starts when the text from `p` has no
/// directive: after a gap, an optional `---` and another gap.
pub open spec fn body_start(d: Seq<u8>, p: int) -> int {
    let p1 = gap_end(d, p);
    if is_prefix_at(d, p1, seq![45u8, 45u8, 45u8]) { gap_end(d, p1 + 3) } else { p1 }
}

/// The entries of a block map at the root that starts at `p`, see [`kv_items`].
pub open spec fn kv_root(d: Seq<u8>, p: int) -> Option<(Seq<(int, int, int)>, int)> {
    kv_items(d, p, 0, 2, 2)
}

/// A block map at the root starts at `p`, and no `...` follows it.
pub open spec fn kv_doc(d: Seq<u8>, p: int) -> bool {
    kv_root(d, p) is Some && !is_prefix_at(d, gap_end(d, kv_end(kv_root(d, p))), seq![46u8, 46u8, 46u8])
}

/// The text from `p` has no directive, and its one document is a block map at the root
/// followed by a gap.
pub open spec fn kv_only_doc(d: Seq<u8>, p: int) -> bool {
    &&& !(0 <= p < d.len() && d[p] == 37u8)
    &&& kv_doc(d, body_start(d, p))
    &&& gap_to_end(d, kv_end(kv_root(d, body_start(d, p))))
}

/// The text from `p` has no directive, and its one document is a block sequence at the root
/// (see [`seq_doc`]).
pub open spec fn seq_only_doc(d: Seq<u8>, p: int) -> bool {
    !(0 <= p < d.len() && d[p] == 37u8) && seq_doc(d, body_start(d, p))
}

/// A pair `number: number` of a flow map stands at `a`, the value followed by `,` or `}`:
/// where the key and the value start.
pub open spec fn num_pair_at(d: Seq<u8>, a: int) -> Option<(int, int)> {
    let e = num_end(d, a)->0;
    let b = blank_end(d, e + 1);
    if num_flow_at(d, a) && d[e] == 58u8 && e + 1 < d.len() && d[e + 1] == 32u8 && num_flow_at(d, b)
        && (d[num_end(d, b)->0] == 44u8 || d[num_end(d, b)->0] == 125u8) {
        Some((a, b))
    } else {
        None
    }
}

/// The pairs of a flow map of numbers, from `i` (after `{` or a `,`): white space and a pair
/// followed by `,` or `}`; a `}` after white space ends the map. Gives where each key and
/// value start, and the position after the `}`.
pub open spec fn flow_num_pairs(d: Seq<u8>, i: int) -> Option<(Seq<(int, int)>, int)>
    decreases d.len() - i,
{
    let a = space_end(d, i);
    if i < 0 || a < i {
        None
    } else if a < d.len() && d[a] == 125u8 {
        Some((seq![], a + 1))
    } else {
        match num_pair_at(d, a) {
            Some((k, b)) => {
                let e2 = num_end(d, b)->0;
                if d[e2] == 44u8 {
                    if i < e2 + 1 <= d.len() {
                        match flow_num_pairs(d, e2 + 1) {
                            Some((w, e)) => Some((seq![(k, b)] + w, e)),
                            None => None,
                        }
                    } else {
                        None
                    }
                } else {
                    Some((seq![(k, b)], e2 + 1))
                }
            },
            None => None,
        }
    }
}

/// `m` is the map of the number pairs `items`: inserted in order, each key the number at
/// the start of its pair and each value the number after its `: `.
pub open spec fn num_pairs_map(d: Seq<u8>, items: Seq<(int, int)>, m: Seq<(Node, Node)>) -> bool {
    exists|ks: Seq<Node>, vs: Seq<Node>| #[trigger] crate::yaml::map_of(ks, vs) == m && ks.len() == items.len() && vs.len() == items.len()
        && forall|i: int| 0 <= i < items.len() ==> num_yaml(d, items[i].0, #[trigger] ks[i].yaml) && num_yaml(d, items[i].1, vs[i].yaml)
}

/// The data of the one document parsed, or the error.
pub open spec fn single_doc(r: PResult<Vec<Node>>) -> PResult<Yaml> {
    match r {
        Ok(v) => if v@.len() == 1 { Ok(v@[0].yaml) } else { Err(PError::Mismatch) },
        Err(e) => Err(e),
    }
}

/// A number scanned from some position ends at a place where a scalar may end.
pub open spec fn scanned(d: Seq<u8>, m: Option<int>) -> bool {
    m matches Some(e) && bound_at(d, e)
}

/// A word that runs to the end is a plain string that runs to the end.
proof fn lemma_word_plain(d: Seq<u8>, p: int, i: int, inner: bool)
    requires
        word_rest(d, p),
        p <= i <= d.len(),
    ensures
        plain_start(d, p, inner),
        d[p] != 11u8,
        plain_stop(d, p, i, inner) == d.len(),
    decreases d.len() - i,
{
    if i < d.len() {
        assert(is_alnum(d[i]));
        lemma_word_plain(d, p, i + 1, inner);
    }
}

/// `s` is one of the words.
fn is_word(s: &[u8], w: &[u8]) -> (b: bool)
    ensures
        b == (s@ == w@),
{
    bytes_equal(s, w)
}

/// One of the words of a keyword, each written as its bytes.
pub open spec fn one_of(b: Seq<u8>, w1: Seq<u8>, w2: Seq<u8>, w3: Seq<u8>) -> bool {
    b == w1 || b == w2 || b == w3
}

/// `~`, `null`, `Null` or `NULL`.
pub open spec fn null_word(b: Seq<u8>) -> bool {
    b == seq![126u8] || one_of(b, seq![110u8, 117u8, 108u8, 108u8], seq![78u8, 117u8, 108u8, 108u8], seq![78u8, 85u8, 76u8, 76u8])
}

/// `true`, `True` or `TRUE`.
pub open spec fn true_word(b: Seq<u8>) -> bool {
    one_of(b, seq![116u8, 114u8, 117u8, 101u8], seq![84u8, 114u8, 117u8, 101u8], seq![84u8, 82u8, 85u8, 69u8])
}

/// `false`, `False` or `FALSE`.
pub open spec fn false_word(b: Seq<u8>) -> bool {
    one_of(
        b,
        seq![102u8, 97u8, 108u8, 115u8, 101u8],
        seq![70u8, 97u8, 108u8, 115u8, 101u8],
        seq![70u8, 65u8, 76u8, 83u8, 69u8],
    )
}

/// `.nan`, `.NaN` or `.NAN`.
pub open spec fn nan_word(b: Seq<u8>) -> bool {
    one_of(b, seq![46u8, 110u8, 97u8, 110u8], seq![46u8, 78u8, 97u8, 78u8], seq![46u8, 78u8, 65u8, 78u8])
}

/// `.inf`, `.Inf` or `.INF`.
pub open spec fn inf_word(b: Seq<u8>) -> bool {
    one_of(b, seq![46u8, 105u8, 110u8, 102u8], seq![46u8, 73u8, 110u8, 102u8], seq![46u8, 73u8, 78u8, 70u8])
}

/// `-.inf`, `-.Inf` or `-.INF`.
pub open spec fn neg_inf_word(b: Seq<u8>) -> bool {
    one_of(
        b,
        seq![45u8, 46u8, 105u8, 110u8, 102u8],
        seq![45u8, 46u8, 73u8, 110u8, 102u8],
        seq![45u8, 46u8, 73u8, 78u8, 70u8],
    )
}

/// `y` is the data that the plain string `s` stands for: null, booleans, NaN and
/// infinities in their three spellings, and else the string itself.
pub open spec fn keyword_yaml(s: String, y: Yaml) -> bool {
    let b = crate::yaml::text_bytes(s);
    if null_word(b) {
        y is Null
    } else if true_word(b) {
        y == Yaml::Bool(true)
    } else if false_word(b) {
        y == Yaml::Bool(false)
    } else if nan_word(b) {
        y matches Yaml::Float(t) && t@ =~= seq!['N', 'a', 'N']
    } else if inf_word(b) {
        y matches Yaml::Float(t) && t@ =~= seq!['i', 'n', 'f']
    } else if neg_inf_word(b) {
        y matches Yaml::Float(t) && t@ =~= seq!['-', 'i', 'n', 'f']
    } else {
        y == Yaml::Str(s)
    }
}

/// `y` is the data that the plain text `t` stands for: null, booleans, NaN and infinities
/// in their three spellings, and else the text itself as a string.
pub open spec fn plain_yaml(t: Seq<u8>, y: Yaml) -> bool {
    if valid_utf8(t) {
        if null_word(t) {
            y is Null
        } else if true_word(t) {
            y == Yaml::Bool(true)
        } else if false_word(t) {
            y == Yaml::Bool(false)
        } else if nan_word(t) {
            y matches Yaml::Float(s) && s@ =~= seq!['N', 'a', 'N']
        } else if inf_word(t) {
            y matches Yaml::Float(s) && s@ =~= seq!['i', 'n', 'f']
        } else if neg_inf_word(t) {
            y matches Yaml::Float(s) && s@ =~= seq!['-', 'i', 'n', 'f']
        } else {
            y matches Yaml::Str(s) && s@ == decode_utf8(t)
        }
    } else {
        exists|s: String| s@ == crate::text::utf8_lossy(t) && #[trigger] keyword_yaml(s, y)
    }
}

/// The keyword value of a string read from the bytes `t` is the data that `t` stands for.
proof fn lemma_plain_yaml(s: String, t: Seq<u8>, y: Yaml)
    requires
        s@ == crate::text::lossy_text(t),
        keyword_yaml(s, y),
    ensures
        plain_yaml(t, y),
{
    if valid_utf8(t) {
        decode_utf8_encode_utf8(t);
        assert(crate::yaml::text_bytes(s) == t);
    }
}

/// At `p` an anchor `&name` and a space stand before a number that runs to the end of its
/// line.
pub open spec fn anchored_num_at(d: Seq<u8>, p: int) -> bool {
    let e = super::grammar::run_end(d, p + 1, 7);
    &&& 0 <= p && p + 1 < d.len() && d[p] == 38u8 && is_alnum(d[p + 1])
    &&& e < d.len() && d[e] == 32u8
    &&& num_line_at(d, blank_end(d, e))
}

/// A plain string does not go on after the line break at `e`: the next lines do not
/// continue it at the indentation `w` (see [`super::strings::plain_rest`]).
pub open spec fn plain_ends_at(d: Seq<u8>, e: int, w: int) -> bool {
    let f = gap_lines(d, e, false).1;
    !(!doc_marker_at(d, f) && spaces_at(d, f, w) && f + w < d.len() && !super::grammar::is_nl(d[f + w]) && d[f + w] != 35u8)
}

/// A plain word stands at `p` and ends its line: a letter, then letters and digits, then
/// the end of the document or a line break after which the string does not go on at the
/// indentation `w`.
pub open spec fn word_line_at(d: Seq<u8>, p: int, w: int) -> bool {
    let e = word_end(d, p);
    &&& 0 <= p < d.len()
    &&& (65 <= d[p] <= 90 || 97 <= d[p] <= 122)
    &&& (e == d.len() || (super::grammar::is_nl(d[e]) && plain_ends_at(d, e, w)))
}

/// A word that ends its line is a plain string that ends there.
proof fn lemma_word_line_plain(d: Seq<u8>, p: int, i: int, w: int)
    requires
        word_line_at(d, p, w),
        p <= i <= word_end(d, p),
    ensures
        super::strings::plain_rest(d, i, false, w, d.subrange(p, i)) == (d.subrange(p, word_end(d, p)), word_end(d, p)),
    decreases word_end(d, p) - i,
{
    super::grammar::lemma_run_end_props(d, p, 5);
    let e = word_end(d, p);
    if i < e {
        assert(is_alnum(d[i]));
        assert(d.subrange(p, i).push(d[i]) =~= d.subrange(p, i + 1));
        lemma_word_line_plain(d, p, i + 1, w);
    }
}

/// What a word that ends its line stands for, as the plain scalar there gives it.
proof fn lemma_word_line_term(d: Seq<u8>, p: int, w: int)
    requires
        word_line_at(d, p, w),
    ensures
        ({
            let res = super::strings::plain_rest(d, p, false, w, seq![]);
            &&& res == (d.subrange(p, word_end(d, p)), word_end(d, p))
            &&& super::strings::trim_end(res.0) == res.0
            &&& res.0.len() > 0
            &&& no_number(d, p)
            &&& !super::strings::plain_refused(d, p, false)
            &&& !gap_ok(d, p, true)
        }),
{
    super::grammar::lemma_run_end_props(d, p, 5);
    super::grammar::lemma_run_end_props(d, p, 6);
    super::grammar::lemma_run_end_props(d, p, 0);
    assert(d.subrange(p, p) =~= Seq::<u8>::empty());
    lemma_word_line_plain(d, p, p, w);
    let e = word_end(d, p);
    assert(is_alnum(d[e - 1]));
    assert(d.subrange(p, e).last() == d[e - 1]);
}

/// No number (float, scientific float or integer) followed by a boundary stands at `p`.
pub open spec fn no_number(d: Seq<u8>, p: int) -> bool {
    !scanned(d, float_end(d, p)) && !scanned(d, sci_end(d, p)) && !scanned(d, num_end(d, p))
}

/// The data that a plain string stands for: null, booleans, NaN and infinities in their
/// three spellings, and else the string itself.
pub fn plain_keyword(s: String) -> (y: Yaml)
    ensures
        keyword_yaml(s, y),
{
    let b = s.as_str().as_bytes();
    let null_words: Vec<Vec<u8>> = vec![vec![126u8], vec![110u8, 117u8, 108u8, 108u8], vec![78u8, 117u8, 108u8, 108u8], vec![78u8, 85u8, 76u8, 76u8]];
    let true_words: Vec<Vec<u8>> = vec![vec![116u8, 114u8, 117u8, 101u8], vec![84u8, 114u8, 117u8, 101u8], vec![84u8, 82u8, 85u8, 69u8]];
    let false_words: Vec<Vec<u8>> = vec![vec![102u8, 97u8, 108u8, 115u8, 101u8], vec![70u8, 97u8, 108u8, 115u8, 101u8], vec![70u8, 65u8, 76u8, 83u8, 69u8]];
    let nan_words: Vec<Vec<u8>> = vec![vec![46u8, 110u8, 97u8, 110u8], vec![46u8, 78u8, 97u8, 78u8], vec![46u8, 78u8, 65u8, 78u8]];
    let inf_words: Vec<Vec<u8>> = vec![vec![46u8, 105u8, 110u8, 102u8], vec![46u8, 73u8, 110u8, 102u8], vec![46u8, 73u8, 78u8, 70u8]];
    let ninf_words: Vec<Vec<u8>> = vec![vec![45u8, 46u8, 105u8, 110u8, 102u8], vec![45u8, 46u8, 73u8, 110u8, 102u8], vec![45u8, 46u8, 73u8, 78u8, 70u8]];
    proof {
        assert(null_words@[0]@ =~= seq![126u8]);
        assert(null_words@[1]@ =~= seq![110u8, 117u8, 108u8, 108u8]);
        assert(null_words@[2]@ =~= seq![78u8, 117u8, 108u8, 108u8]);
        assert(null_words@[3]@ =~= seq![78u8, 85u8, 76u8, 76u8]);
        assert(true_words@[0]@ =~= seq![116u8, 114u8, 117u8, 101u8]);
        assert(true_words@[1]@ =~= seq![84u8, 114u8, 117u8, 101u8]);
        assert(true_words@[2]@ =~= seq![84u8, 82u8, 85u8, 69u8]);
        assert(false_words@[0]@ =~= seq![102u8, 97u8, 108u8, 115u8, 101u8]);
        assert(false_words@[1]@ =~= seq![70u8, 97u8, 108u8, 115u8, 101u8]);
        assert(false_words@[2]@ =~= seq![70u8, 65u8, 76u8, 83u8, 69u8]);
        assert(nan_words@[0]@ =~= seq![46u8, 110u8, 97u8, 110u8]);
        assert(nan_words@[1]@ =~= seq![46u8, 78u8, 97u8, 78u8]);
        assert(nan_words@[2]@ =~= seq![46u8, 78u8, 65u8, 78u8]);
        assert(inf_words@[0]@ =~= seq![46u8, 105u8, 110u8, 102u8]);
        assert(inf_words@[1]@ =~= seq![46u8, 73u8, 110u8, 102u8]);
        assert(inf_words@[2]@ =~= seq![46u8, 73u8, 78u8, 70u8]);
        assert(ninf_words@[0]@ =~= seq![45u8, 46u8, 105u8, 110u8, 102u8]);
        assert(ninf_words@[1]@ =~= seq![45u8, 46u8, 73u8, 110u8, 102u8]);
        assert(ninf_words@[2]@ =~= seq![45u8, 46u8, 73u8, 78u8, 70u8]);
        reveal_strlit("NaN");
        reveal_strlit("inf");
        reveal_strlit("-inf");
    }
    let y = if any_word(b, &null_words) {
        Yaml::Null
    } else if any_word(b, &true_words) {
        Yaml::Bool(true)
    } else if any_word(b, &false_words) {
        Yaml::Bool(false)
    } else if any_word(b, &nan_words) {
        Yaml::Float("NaN".to_owned())
    } else if any_word(b, &inf_words) {
        Yaml::Float("inf".to_owned())
    } else if any_word(b, &ninf_words) {
        Yaml::Float("-inf".to_owned())
    } else {
        Yaml::Str(s)
    };
    y
}

fn any_word(s: &[u8], words: &Vec<Vec<u8>>) -> (b: bool)
    ensures
        b == exists|i: int| 0 <= i < words@.len() && s@ == #[trigger] words@[i]@,
{
    let mut i: usize = 0;
    while i < words.len()
        invariant
            i <= words@.len(),
            forall|k: int| 0 <= k < i ==> s@ != #[trigger] words@[k]@,
        decreases words@.len() - i,
    {
        if is_word(s, words[i].as_slice()) {
            return true;
        }
        i = i + 1;
    }
    false
}

impl<'a> Parser<'a> {
    /// The frame of the structure sub-parsers: well-formed, same document, same checkpoint.
    pub open spec fn frame(&self, old: &Self) -> bool {
        &&& self.wf()
        &&& self.same_doc(old)
        &&& self.eaten == old.eaten
    }

    /// At the cursor, a blank run, an optional comment, then the end of the document.
    fn at_end(&mut self) -> (b: bool)
        requires
            old(self).wf(),
        ensures
            final(self).keeps(old(self)),
            final(self).indent == old(self).indent,
            final(self).pos == old(self).pos,
            b == blank_rest(old(self).doc@, old(self).pos as int),
    {
        let start = self.pos;
        let _ = self.ws(TakeOpt::More(0));
        proof {
            super::grammar::lemma_run_end_props(old(self).doc@, old(self).pos as int, 0);
            super::grammar::lemma_run_end(old(self).doc@, self.pos as int, self.pos as int, 0);
        }
        let _ = self.comment();
        let b = self.pos == self.doc.len();
        self.pos = start;
        b
    }

    /// Match doc end: the end of the document, or a document marker ahead.
    pub fn doc_end(&self) -> (b: bool)
        requires
            self.wf(),
        ensures
            b == (self.pos == self.doc@.len() || doc_marker_at(self.doc@, self.pos as int)),
    {
        self.pos == self.doc.len() || self.at_doc_marker()
    }

    /// Match scalar: a node with its anchor and tag, whose data is a literal or folded
    /// string, a block sequence, a block map, or a flow scalar.
    pub fn scalar(&mut self, level: usize, nest: bool, inner: bool) -> (r: PResult<Node>)
        requires
            old(self).wf(),
        ensures
            final(self).frame(old(self)),
            r matches Ok(n) ==> final(self).data_ok(n.yaml),
            r is Ok ==> old(self).pos <= final(self).pos,
            r matches Err(e) && e is Mismatch ==> final(self).pos == old(self).pos,
            word_rest(old(self).doc@, old(self).pos as int) ==> r is Ok && final(self).pos == old(self).doc@.len(),
            word_rest(old(self).doc@, old(self).pos as int) ==> (r matches Ok(n) && word_yaml(old(self).doc@, old(self).pos as int, n.yaml)),
            closing_at(old(self).doc@, old(self).pos as int) ==> (r matches Ok(n) && n.yaml is Null) && final(self).pos == old(self).pos,
            r matches Ok(n) ==> (n.anchor@.len() > 0 ==> (anchored(final(self).anchors, n.anchor@) matches Some(a) && node_same(a, n))),
            inner && flow_word_at(old(self).doc@, old(self).pos as int) ==> (r matches Ok(n) && final(self).pos == word_end(old(self).doc@, old(self).pos as int)
                && word_yaml_to(old(self).doc@, old(self).pos as int, word_end(old(self).doc@, old(self).pos as int), n.yaml)),
            alias_rest(old(self).doc@, old(self).pos as int) ==> alias_outcome(old(self).keep_alias, old(self).anchors,
                alias_name(old(self).doc@, old(self).pos as int), node_data(r)) && (r is Ok ==> final(self).pos == old(self).doc@.len()),
            num_line_at(old(self).doc@, old(self).pos as int) ==> (r matches Ok(n) && num_yaml(old(self).doc@, old(self).pos as int, n.yaml))
                && final(self).pos == num_end(old(self).doc@, old(self).pos as int)->0 && final(self).indent == old(self).indent
                && final(self).anchors == old(self).anchors,
            ({
                let d = old(self).doc@;
                let p = old(self).pos as int;
                let ni = seq_items_at(d, p, old(self).indent@, level as int);
                level + 1 < usize::MAX && !nest && ni is Some ==> (r matches Ok(n) && seq_yaml(d, ni, n.yaml) && final(self).pos == words_end(ni))
            }),
            num_flow_at(old(self).doc@, old(self).pos as int) && old(self).doc@[num_end(old(self).doc@, old(self).pos as int)->0] != 58u8 ==> (r matches Ok(n) && num_yaml(old(self).doc@, old(self).pos as int, n.yaml))
                && final(self).pos == num_end(old(self).doc@, old(self).pos as int)->0 && final(self).indent == old(self).indent
                && final(self).anchors == old(self).anchors,
            ({
                let d = old(self).doc@;
                let p = old(self).pos as int;
                nest && !inner && word_line_at(d, p, sum_widths(levels_set(old(self).indent@, level as int), level + 1))
                    ==> (r matches Ok(n) && plain_yaml(d.subrange(p, word_end(d, p)), n.yaml)) && final(self).pos == word_end(d, p)
                    && final(self).anchors == old(self).anchors
                    && (final(self).indent@ == old(self).indent@ || final(self).indent@ == levels_set(old(self).indent@, level as int))
            }),
            ({
                let d = old(self).doc@;
                let p = old(self).pos as int;
                let ki = kv_items(d, p, sum_widths(levels_set(old(self).indent@, level as int), level + 1),
                    sum_widths(levels_set(old(self).indent@, level + 1), level + 2),
                    sum_widths(levels_set(levels_set(old(self).indent@, level as int), level + 1), level + 2));
                level < usize::MAX && !nest && ki is Some ==> (r matches Ok(n) && (n.yaml matches Yaml::Mapping(m)
                    && kv_map(d, kv_of(ki), m@))) && final(self).pos == kv_end(ki)
            }),
            ({
                let d = old(self).doc@;
                let p = old(self).pos as int;
                level < usize::MAX && !nest && !inner && word_line_at(d, p, sum_widths(levels_set(old(self).indent@, level + 1), level + 2))
                    ==> (r matches Ok(n) && plain_yaml(d.subrange(p, word_end(d, p)), n.yaml)) && final(self).pos == word_end(d, p)
                    && final(self).anchors == old(self).anchors
                    && (final(self).indent@ == old(self).indent@ || final(self).indent@ == levels_set(old(self).indent@, level + 1))
            }),
        decreases old(self).doc@.len() - old(self).pos, 7nat,
    {
        self.scalar_full(level, nest, inner)
    }

    /// Match flow scalar.
    pub fn scalar_flow(&mut self, level: usize, inner: bool) -> (r: PResult<Node>)
        requires
            old(self).wf(),
        ensures
            final(self).frame(old(self)),
            r matches Ok(n) ==> final(self).data_ok(n.yaml),
            r is Ok ==> old(self).pos <= final(self).pos,
            r matches Err(e) && e is Mismatch ==> final(self).pos == old(self).pos,
            word_rest(old(self).doc@, old(self).pos as int) ==> r is Ok && final(self).pos == old(self).doc@.len(),
            word_rest(old(self).doc@, old(self).pos as int) ==> (r matches Ok(n) && word_yaml(old(self).doc@, old(self).pos as int, n.yaml)),
            no_scalar_at(old(self).doc@, old(self).pos as int) ==> (r matches Ok(n) && n.yaml is Null) && final(self).pos == old(self).pos,
            key_at(old(self).doc@, old(self).pos as int) ==> r is Ok && final(self).pos == word_end(old(self).doc@, old(self).pos as int),
            key_at(old(self).doc@, old(self).pos as int) ==> final(self).indent@ == old(self).indent@ && final(self).anchors == old(self).anchors,
            key_at(old(self).doc@, old(self).pos as int) ==> (r matches Ok(n) && word_yaml_to(old(self).doc@, old(self).pos as int,
                word_end(old(self).doc@, old(self).pos as int), n.yaml)),
            r matches Ok(n) ==> (n.anchor@.len() > 0 ==> (anchored(final(self).anchors, n.anchor@) matches Some(a) && node_same(a, n))),
            inner && flow_word_at(old(self).doc@, old(self).pos as int) ==> (r matches Ok(n) && final(self).pos == word_end(old(self).doc@, old(self).pos as int)
                && word_yaml_to(old(self).doc@, old(self).pos as int, word_end(old(self).doc@, old(self).pos as int), n.yaml)),
            alias_rest(old(self).doc@, old(self).pos as int) ==> alias_outcome(old(self).keep_alias, old(self).anchors,
                alias_name(old(self).doc@, old(self).pos as int), node_data(r)) && (r is Ok ==> final(self).pos == old(self).doc@.len()),
            num_line_at(old(self).doc@, old(self).pos as int) ==> (r matches Ok(n) && num_yaml(old(self).doc@, old(self).pos as int, n.yaml))
                && final(self).pos == num_end(old(self).doc@, old(self).pos as int)->0 && final(self).indent == old(self).indent
                && final(self).anchors == old(self).anchors,
            num_flow_at(old(self).doc@, old(self).pos as int) ==> (r matches Ok(n) && num_yaml(old(self).doc@, old(self).pos as int, n.yaml))
                && final(self).pos == num_end(old(self).doc@, old(self).pos as int)->0 && final(self).indent == old(self).indent
                && final(self).anchors == old(self).anchors,
            ({
                let d = old(self).doc@;
                let p = old(self).pos as int;
                let e = super::grammar::run_end(d, p + 1, 7);
                let q = blank_end(d, e);
                anchored_num_at(d, p) ==> (r matches Ok(n) && num_yaml(d, q, n.yaml) && n.anchor@ == crate::text::lossy_text(d.subrange(p + 1, e))
                    && n.pos == old(self).consumed + q) && final(self).pos == num_end(d, q)->0
            }),
            ({
                let d = old(self).doc@;
                let p = old(self).pos as int;
                !inner && word_line_at(d, p, sum_widths(levels_set(old(self).indent@, level as int), level + 1))
                    ==> (r matches Ok(n) && plain_yaml(d.subrange(p, word_end(d, p)), n.yaml)) && final(self).pos == word_end(d, p)
                    && final(self).anchors == old(self).anchors
                    && (final(self).indent@ == old(self).indent@ || final(self).indent@ == levels_set(old(self).indent@, level as int))
            }),
        decreases old(self).doc@.len() - old(self).pos, 3nat,
    {
        self.scalar_flow_inner(level, inner)
    }

    /// Match an anchor and a tag before a node, each followed by a boundary.
    fn node_prefix(&mut self) -> (r: PResult<(String, String)>)
        requires
            old(self).wf(),
        ensures
            final(self).frame(old(self)),
            final(self).anchors == old(self).anchors,
            r is Ok ==> old(self).pos <= final(self).pos,
            r matches Err(e) && e is Mismatch ==> final(self).pos == old(self).pos,
            !(old(self).pos < old(self).doc@.len() && (old(self).doc@[old(self).pos as int] == 38u8 || old(self).doc@[old(self).pos as int] == 33u8))
                ==> (r matches Ok((a, t)) && a@.len() == 0 && t@.len() == 0) && final(self).pos == old(self).pos
                && final(self).indent == old(self).indent,
            ({
                let d = old(self).doc@;
                let p = old(self).pos as int;
                r matches Ok((a, t)) ==> (a@.len() > 0 ==> p < d.len() && d[p] == 38u8 && exists|e: int| p < e <= final(self).pos
                    && a@ == crate::text::lossy_text(#[trigger] d.subrange(p + 1, e)))
            }),
            ({
                let d = old(self).doc@;
                let p = old(self).pos as int;
                p < d.len() && d[p] == 33u8 && r is Ok ==> (r matches Ok((a, t)) && a@.len() == 0)
            }),
            ({
                let d = old(self).doc@;
                let p = old(self).pos as int;
                let e = super::grammar::run_end(d, p + 1, 7);
                let q = blank_end(d, e);
                p + 1 < d.len() && d[p] == 38u8 && is_alnum(d[p + 1]) && (e == d.len() || super::base::in_set(super::grammar::bound_set(), d[e]))
                    && !(q < d.len() && d[q] == 33u8) ==> (r matches Ok((a, t)) && a@ == crate::text::lossy_text(d.subrange(p + 1, e))
                    && t@.len() == 0) && final(self).pos == q && final(self).indent == old(self).indent
            }),
    {
        let start = self.pos;
        let ghost mut e1: int = 0;
        let anchor = match self.anchor() {
            Ok(a) => {
                proof {
                    e1 = self.pos as int;
                }
                if self.bound().is_err() {
                    self.pos = start;
                    return Err(PError::Mismatch);
                }
                a
            },
            Err(_) => {
                proof {
                    e1 = start as int;
                }
                String::new()
            },
        };
        let p1 = self.pos;
        let tag = match self.tag() {
            Ok(t) => {
                if self.bound().is_err() {
                    self.pos = start;
                    return Err(PError::Mismatch);
                }
                t
            },
            Err(PError::Mismatch) => String::new(),
            Err(e) => { return Err(e); },
        };
        proof {
            let d = old(self).doc@;
            if anchor@.len() > 0 {
                assert(anchor@ == crate::text::lossy_text(d.subrange(start + 1, e1)));
            }
        }
        Ok((anchor, tag))
    }

    /// Builds the node and records its anchor.
    fn finish_node(&mut self, yaml: Yaml, pos: u64, tag: String, anchor: String) -> (n: Node)
        requires
            old(self).wf(),
            old(self).data_ok(yaml),
        ensures
            final(self).frame(old(self)),
            final(self).pos == old(self).pos,
            final(self).indent == old(self).indent,
            n.yaml == yaml,
            n.pos == pos,
            n.tag@ == tag@,
            n.anchor@ == anchor@,
            anchor@.len() > 0 ==> (anchored(final(self).anchors, anchor@) matches Some(a) && node_same(a, n)),
            anchor@.len() == 0 ==> final(self).anchors == old(self).anchors,
    {
        let has_anchor = anchor.as_str().unicode_len() > 0;
        let node = Node { pos, tag, anchor, yaml };
        if has_anchor {
            let copy = node_copy(&node);
            let name = node.anchor.clone();
            let ghost keep = self.keep_alias;
            proof {
                let p = |x: Node| keep || alias_free(yaml_view(x.yaml));
                assert forall|i: int| 0 <= i < anchor_entries(self.anchors).len() implies p(#[trigger] anchor_entries(self.anchors)[i].1) by {
                    assert(self.data_ok(anchor_entries(self.anchors)[i].1.yaml));
                }
                lemma_insert_values(anchor_entries(self.anchors), name@, copy, p);
            }
            let ghost k = name@;
            let ghost c = copy;
            let ghost m0 = anchor_entries(self.anchors);
            anchors_insert(&mut self.anchors, name, copy);
            proof {
                let m2 = anchor_entries(self.anchors);
                crate::anchors::lemma_key_index(m0, k);
                assert(m2.len() > 0 && m2.last() == (k, c));
                assert(key_index_last(m2, k));
                assert(k == anchor@);
                assert(node_same(c, node));
                assert(key_index(m2, k) == Some(m2.len() - 1));
                assert(anchored(self.anchors, k) == Some(c));
                let p = |x: Node| keep || alias_free(yaml_view(x.yaml));
                assert forall|i: int| 0 <= i < anchor_entries(self.anchors).len() implies self.data_ok(#[trigger] anchor_entries(self.anchors)[i].1.yaml) by {
                    assert(p(anchor_entries(self.anchors)[i].1));
                }
            }
        }
        node
    }

    fn scalar_full(&mut self, level: usize, nest: bool, inner: bool) -> (r: PResult<Node>)
        requires
            old(self).wf(),
        ensures
            final(self).frame(old(self)),
            r matches Ok(n) ==> final(self).data_ok(n.yaml),
            r is Ok ==> old(self).pos <= final(self).pos,
            r matches Err(e) && e is Mismatch ==> final(self).pos == old(self).pos,
            word_rest(old(self).doc@, old(self).pos as int) ==> r is Ok && final(self).pos == old(self).doc@.len(),
            word_rest(old(self).doc@, old(self).pos as int) ==> (r matches Ok(n) && word_yaml(old(self).doc@, old(self).pos as int, n.yaml)),
            closing_at(old(self).doc@, old(self).pos as int) ==> (r matches Ok(n) && n.yaml is Null) && final(self).pos == old(self).pos,
            r matches Ok(n) ==> (n.anchor@.len() > 0 ==> (anchored(final(self).anchors, n.anchor@) matches Some(a) && node_same(a, n))),
            inner && flow_word_at(old(self).doc@, old(self).pos as int) ==> (r matches Ok(n) && final(self).pos == word_end(old(self).doc@, old(self).pos as int)
                && word_yaml_to(old(self).doc@, old(self).pos as int, word_end(old(self).doc@, old(self).pos as int), n.yaml)),
            alias_rest(old(self).doc@, old(self).pos as int) ==> alias_outcome(old(self).keep_alias, old(self).anchors,
                alias_name(old(self).doc@, old(self).pos as int), node_data(r)) && (r is Ok ==> final(self).pos == old(self).doc@.len()),
            num_line_at(old(self).doc@, old(self).pos as int) ==> (r matches Ok(n) && num_yaml(old(self).doc@, old(self).pos as int, n.yaml))
                && final(self).pos == num_end(old(self).doc@, old(self).pos as int)->0 && final(self).indent == old(self).indent
                && final(self).anchors == old(self).anchors,
            ({
                let d = old(self).doc@;
                let p = old(self).pos as int;
                let ni = seq_items_at(d, p, old(self).indent@, level as int);
                level + 1 < usize::MAX && !nest && ni is Some ==> (r matches Ok(n) && seq_yaml(d, ni, n.yaml) && final(self).pos == words_end(ni))
            }),
            num_flow_at(old(self).doc@, old(self).pos as int) && old(self).doc@[num_end(old(self).doc@, old(self).pos as int)->0] != 58u8 ==> (r matches Ok(n) && num_yaml(old(self).doc@, old(self).pos as int, n.yaml))
                && final(self).pos == num_end(old(self).doc@, old(self).pos as int)->0 && final(self).indent == old(self).indent
                && final(self).anchors == old(self).anchors,
            ({
                let d = old(self).doc@;
                let p = old(self).pos as int;
                nest && !inner && word_line_at(d, p, sum_widths(levels_set(old(self).indent@, level as int), level + 1))
                    ==> (r matches Ok(n) && plain_yaml(d.subrange(p, word_end(d, p)), n.yaml)) && final(self).pos == word_end(d, p)
                    && final(self).anchors == old(self).anchors
                    && (final(self).indent@ == old(self).indent@ || final(self).indent@ == levels_set(old(self).indent@, level as int))
            }),
            ({
                let d = old(self).doc@;
                let p = old(self).pos as int;
                let ki = kv_items(d, p, sum_widths(levels_set(old(self).indent@, level as int), level + 1),
                    sum_widths(levels_set(old(self).indent@, level + 1), level + 2),
                    sum_widths(levels_set(levels_set(old(self).indent@, level as int), level + 1), level + 2));
                level < usize::MAX && !nest && ki is Some ==> (r matches Ok(n) && (n.yaml matches Yaml::Mapping(m)
                    && kv_map(d, kv_of(ki), m@))) && final(self).pos == kv_end(ki)
            }),
            ({
                let d = old(self).doc@;
                let p = old(self).pos as int;
                level < usize::MAX && !nest && !inner && word_line_at(d, p, sum_widths(levels_set(old(self).indent@, level + 1), level + 2))
                    ==> (r matches Ok(n) && plain_yaml(d.subrange(p, word_end(d, p)), n.yaml)) && final(self).pos == word_end(d, p)
                    && final(self).anchors == old(self).anchors
                    && (final(self).indent@ == old(self).indent@ || final(self).indent@ == levels_set(old(self).indent@, level + 1))
            }),
        decreases old(self).doc@.len() - old(self).pos, 6nat,
    {
        let start = self.pos;
        proof {
            if nest && !inner && word_line_at(self.doc@, self.pos as int, sum_widths(levels_set(self.indent@, level as int), level + 1)) {
                lemma_word_line_term(self.doc@, self.pos as int, sum_widths(levels_set(self.indent@, level as int), level + 1));
            }
            if level < usize::MAX && word_line_at(self.doc@, self.pos as int, sum_widths(levels_set(self.indent@, level + 1), level + 2)) {
                lemma_word_line_term(self.doc@, self.pos as int, sum_widths(levels_set(self.indent@, level + 1), level + 2));
            }
        }
        let (anchor, tag) = self.node_prefix()?;
        let pos = self.indicator();
        let y = if let Ok(s) = self.string_literal(level) {
            Yaml::Str(s)
        } else if let Ok(s) = self.string_folded(level) {
            Yaml::Str(s)
        } else {
            match self.seq(level, nest) {
                Ok(y) => y,
                Err(PError::Mismatch) => match self.map(level, nest, inner) {
                    Ok(y) => y,
                    Err(PError::Mismatch) => match self.scalar_term(level, inner) {
                        Ok(y) => y,
                        Err(PError::Mismatch) => {
                            self.pos = start;
                            return Err(PError::Mismatch);
                        },
                        Err(e) => { return Err(e); },
                    },
                    Err(e) => { return Err(e); },
                },
                Err(e) => { return Err(e); },
            }
        };
        Ok(self.finish_node(y, pos, tag, anchor))
    }

    fn scalar_flow_inner(&mut self, level: usize, inner: bool) -> (r: PResult<Node>)
        requires
            old(self).wf(),
        ensures
            final(self).frame(old(self)),
            r matches Ok(n) ==> final(self).data_ok(n.yaml),
            r is Ok ==> old(self).pos <= final(self).pos,
            r matches Err(e) && e is Mismatch ==> final(self).pos == old(self).pos,
            word_rest(old(self).doc@, old(self).pos as int) ==> r is Ok && final(self).pos == old(self).doc@.len(),
            word_rest(old(self).doc@, old(self).pos as int) ==> (r matches Ok(n) && word_yaml(old(self).doc@, old(self).pos as int, n.yaml)),
            no_scalar_at(old(self).doc@, old(self).pos as int) ==> (r matches Ok(n) && n.yaml is Null) && final(self).pos == old(self).pos,
            key_at(old(self).doc@, old(self).pos as int) ==> r is Ok && final(self).pos == word_end(old(self).doc@, old(self).pos as int),
            key_at(old(self).doc@, old(self).pos as int) ==> final(self).indent@ == old(self).indent@ && final(self).anchors == old(self).anchors,
            key_at(old(self).doc@, old(self).pos as int) ==> (r matches Ok(n) && word_yaml_to(old(self).doc@, old(self).pos as int,
                word_end(old(self).doc@, old(self).pos as int), n.yaml)),
            r matches Ok(n) ==> (n.anchor@.len() > 0 ==> (anchored(final(self).anchors, n.anchor@) matches Some(a) && node_same(a, n))),
            inner && flow_word_at(old(self).doc@, old(self).pos as int) ==> (r matches Ok(n) && final(self).pos == word_end(old(self).doc@, old(self).pos as int)
                && word_yaml_to(old(self).doc@, old(self).pos as int, word_end(old(self).doc@, old(self).pos as int), n.yaml)),
            alias_rest(old(self).doc@, old(self).pos as int) ==> alias_outcome(old(self).keep_alias, old(self).anchors,
                alias_name(old(self).doc@, old(self).pos as int), node_data(r)) && (r is Ok ==> final(self).pos == old(self).doc@.len()),
            num_line_at(old(self).doc@, old(self).pos as int) ==> (r matches Ok(n) && num_yaml(old(self).doc@, old(self).pos as int, n.yaml))
                && final(self).pos == num_end(old(self).doc@, old(self).pos as int)->0 && final(self).indent == old(self).indent
                && final(self).anchors == old(self).anchors,
            num_flow_at(old(self).doc@, old(self).pos as int) ==> (r matches Ok(n) && num_yaml(old(self).doc@, old(self).pos as int, n.yaml))
                && final(self).pos == num_end(old(self).doc@, old(self).pos as int)->0 && final(self).indent == old(self).indent
                && final(self).anchors == old(self).anchors,
            ({
                let d = old(self).doc@;
                let p = old(self).pos as int;
                let e = super::grammar::run_end(d, p + 1, 7);
                let q = blank_end(d, e);
                anchored_num_at(d, p) ==> (r matches Ok(n) && num_yaml(d, q, n.yaml) && n.anchor@ == crate::text::lossy_text(d.subrange(p + 1, e))
                    && n.pos == old(self).consumed + q) && final(self).pos == num_end(d, q)->0
            }),
            ({
                let d = old(self).doc@;
                let p = old(self).pos as int;
                !inner && word_line_at(d, p, sum_widths(levels_set(old(self).indent@, level as int), level + 1))
                    ==> (r matches Ok(n) && plain_yaml(d.subrange(p, word_end(d, p)), n.yaml)) && final(self).pos == word_end(d, p)
                    && final(self).anchors == old(self).anchors
                    && (final(self).indent@ == old(self).indent@ || final(self).indent@ == levels_set(old(self).indent@, level as int))
            }),
        decreases old(self).doc@.len() - old(self).pos, 2nat,
    {
        let start = self.pos;
        proof {
            if !inner && word_line_at(self.doc@, self.pos as int, sum_widths(levels_set(self.indent@, level as int), level + 1)) {
                lemma_word_line_term(self.doc@, self.pos as int, sum_widths(levels_set(self.indent@, level as int), level + 1));
            }
        }
        let (anchor, tag) = self.node_prefix()?;
        let pos = self.indicator();
        let y = match self.scalar_term(level, inner) {
            Ok(y) => y,
            Err(PError::Mismatch) => {
                self.pos = start;
                return Err(PError::Mismatch);
            },
            Err(e) => { return Err(e); },
        };
        Ok(self.finish_node(y, pos, tag, anchor))
    }

    /// Match flow scalar terminal: numbers, aliases, quoted and plain strings (with their
    /// keywords), flow sequences and maps; else null, matching nothing.
    pub fn scalar_term(&mut self, level: usize, inner: bool) -> (r: PResult<Yaml>)
        requires
            old(self).wf(),
        ensures
            final(self).frame(old(self)),
            r matches Ok(y) ==> final(self).data_ok(y),
            r is Ok ==> old(self).pos <= final(self).pos,
            r matches Err(e) && e is Mismatch ==> final(self).pos == old(self).pos,
            r is Err ==> r->Err_0 is Terminate,
            word_rest(old(self).doc@, old(self).pos as int) ==> r is Ok && final(self).pos == old(self).doc@.len(),
            word_rest(old(self).doc@, old(self).pos as int) ==> (r matches Ok(y) && word_yaml(old(self).doc@, old(self).pos as int, y)),
            ({
                let d = old(self).doc@;
                let p = old(self).pos as int;
                if scanned(d, float_end(d, p)) {
                    r matches Ok(Yaml::Float(s)) && s@ == crate::text::lossy_text(d.subrange(p, float_end(d, p)->0))
                        && final(self).pos == blank_end(d, float_end(d, p)->0)
                } else if scanned(d, sci_end(d, p)) {
                    r matches Ok(Yaml::Float(s)) && s@ == crate::text::lossy_text(d.subrange(p, sci_end(d, p)->0))
                        && final(self).pos == blank_end(d, sci_end(d, p)->0)
                } else if scanned(d, num_end(d, p)) {
                    r matches Ok(Yaml::Int(s)) && s@ == crate::text::lossy_text(d.subrange(p, num_end(d, p)->0))
                        && final(self).pos == blank_end(d, num_end(d, p)->0)
                } else {
                    true
                }
            }),
            key_at(old(self).doc@, old(self).pos as int) ==> r is Ok && final(self).pos == word_end(old(self).doc@, old(self).pos as int),
            key_at(old(self).doc@, old(self).pos as int) ==> final(self).indent@ == old(self).indent@ && final(self).anchors == old(self).anchors,
            key_at(old(self).doc@, old(self).pos as int) ==> (r matches Ok(y) && word_yaml_to(old(self).doc@, old(self).pos as int,
                word_end(old(self).doc@, old(self).pos as int), y)),
            no_scalar_at(old(self).doc@, old(self).pos as int) ==> (r matches Ok(y) && y is Null) && final(self).pos == old(self).pos,
            ({
                let d = old(self).doc@;
                let p = old(self).pos as int;
                let e = super::grammar::run_end(d, p + 1, 7);
                !old(self).keep_alias && p + 1 < d.len() && d[p] == 42u8 && is_alnum(d[p + 1]) ==> match anchored(
                    old(self).anchors,
                    crate::text::lossy_text(d.subrange(p + 1, e)),
                ) {
                    Some(a) => r matches Ok(y) && crate::yaml::yaml_same(y, a.yaml) && final(self).pos == e,
                    None => r matches Err(PError::Terminate { name, .. }) && name@ == "anchor"@,
                }
            }),
            ({
                let d = old(self).doc@;
                let p = old(self).pos as int;
                old(self).keep_alias && p + 1 < d.len() && d[p] == 42u8 && is_alnum(d[p + 1])
                    ==> (r matches Ok(Yaml::Alias(a)) && exists|e: int| p + 1 < e <= final(self).pos
                        && a@ == crate::text::lossy_text(#[trigger] d.subrange(p + 1, e)))
            }),
            ({
                let d = old(self).doc@;
                let p = old(self).pos as int;
                alias_rest(d, p) ==> alias_outcome(old(self).keep_alias, old(self).anchors, alias_name(d, p), r)
                    && (r is Ok ==> final(self).pos == d.len())
            }),
            ({
                let d = old(self).doc@;
                let p = old(self).pos as int;
                super::strings::simple_quoted(d, p, 39u8, seq![39u8, 39u8]) matches Some(q)
                    ==> (r matches Ok(Yaml::Str(s)) && s@ == crate::text::lossy_text(d.subrange(p + 1, q))) && final(self).pos == q + 1
            }),
            inner && flow_word_at(old(self).doc@, old(self).pos as int) ==> (r matches Ok(y) && final(self).pos == word_end(old(self).doc@, old(self).pos as int)
                && word_yaml_to(old(self).doc@, old(self).pos as int, word_end(old(self).doc@, old(self).pos as int), y)),
            num_line_at(old(self).doc@, old(self).pos as int) ==> (r matches Ok(y) && num_yaml(old(self).doc@, old(self).pos as int, y))
                && final(self).pos == num_end(old(self).doc@, old(self).pos as int)->0 && final(self).indent == old(self).indent
                && final(self).anchors == old(self).anchors,
            num_flow_at(old(self).doc@, old(self).pos as int) ==> (r matches Ok(y) && num_yaml(old(self).doc@, old(self).pos as int, y))
                && final(self).pos == num_end(old(self).doc@, old(self).pos as int)->0 && final(self).indent == old(self).indent
                && final(self).anchors == old(self).anchors,
            ({
                let d = old(self).doc@;
                let p = old(self).pos as int;
                let res = super::strings::plain_rest(d, p, inner, sum_widths(levels_set(old(self).indent@, level as int), level + 1), seq![]);
                p < d.len() && no_number(d, p) && d[p] != 42u8 && d[p] != 39u8 && d[p] != 34u8
                    && !super::strings::plain_refused(d, p, inner) && super::strings::trim_end(res.0).len() > 0
                    ==> (r matches Ok(y) && plain_yaml(super::strings::trim_end(res.0), y)) && final(self).pos == res.1
                    && final(self).anchors == old(self).anchors
                    && (final(self).indent@ == old(self).indent@ || final(self).indent@ == levels_set(old(self).indent@, level as int))
            }),
            ({
                let d = old(self).doc@;
                let p = old(self).pos as int;
                p < d.len() && d[p] == 39u8 ==> match super::strings::quoted_rest(d, p + 1, 39u8, seq![39u8, 39u8], seq![]) {
                    Some((v, e)) => r matches Ok(Yaml::Str(s)) && s@ == crate::text::lossy_text(v) && final(self).pos == e,
                    None => true,
                }
            }),
            ({
                let d = old(self).doc@;
                let p = old(self).pos as int;
                p < d.len() && d[p] == 34u8 ==> match super::strings::quoted_rest(d, p + 1, 34u8, seq![92u8, 34u8], seq![]) {
                    Some((v, e)) => r matches Ok(Yaml::Str(s)) && s@ == crate::text::lossy_text(
                        super::strings::escape_from(encode_utf8(crate::text::lossy_text(v)), 0, false)) && final(self).pos == e,
                    None => true,
                }
            }),
        decreases old(self).doc@.len() - old(self).pos, 1nat,
    {
        let q1: Vec<u8> = vec![39u8, 39u8];
        let q2: Vec<u8> = vec![92u8, 34u8];
        proof {
            if word_rest(self.doc@, self.pos as int) {
                lemma_word_plain(self.doc@, self.pos as int, self.pos as int, inner);
            }
            assert(q1@ =~= seq![39u8, 39u8]);
            if num_line_at(self.doc@, self.pos as int) || num_flow_at(self.doc@, self.pos as int) {
                let e = num_end(self.doc@, self.pos as int)->0;
                super::grammar::lemma_run_end_props(self.doc@, super::grammar::num_start(self.doc@, self.pos as int), 6);
                assert(blank_end(self.doc@, e) == e);
                assert(float_end(self.doc@, self.pos as int) is None);
                assert(sci_end(self.doc@, self.pos as int) is None);
                assert(bound_at(self.doc@, e)) by {
                    if e < self.doc@.len() {
                        let bs = super::grammar::bound_set();
                        let c = self.doc@[e];
                        if c == 10u8 {
                            assert(bs[7] == c);
                        } else if c == 13u8 {
                            assert(bs[8] == c);
                        } else if c == 58u8 {
                            assert(bs[0] == c);
                        } else if c == 125u8 {
                            assert(bs[2] == c);
                        } else if c == 93u8 {
                            assert(bs[4] == c);
                        } else {
                            assert(bs[6] == c);
                        }
                        assert(bs.contains(self.doc@[e]));
                    }
                }
            }
            if inner && flow_word_at(self.doc@, self.pos as int) {
                super::grammar::lemma_run_end_props(self.doc@, self.pos as int, 5);
                lemma_flow_plain(self.doc@, self.pos as int, self.pos as int);
            }
            if key_at(self.doc@, self.pos as int) {
                super::grammar::lemma_run_end_props(self.doc@, self.pos as int, 5);
                let c = word_end(self.doc@, self.pos as int);
                assert forall|i: int| self.pos <= i <= c implies !super::grammar::is_nl(#[trigger] self.doc@[i]) by {
                    if i < c {
                        assert(super::grammar::in_class(5, self.doc@[i]));
                    }
                }
                lemma_key_plain(self.doc@, self.pos as int, self.pos as int, inner);
            }
        }
        if let Ok(s) = self.float() {
            Ok(Yaml::Float(s))
        } else if let Ok(s) = self.sci_float() {
            Ok(Yaml::Float(s))
        } else if let Ok(s) = self.integer() {
            Ok(Yaml::Int(s))
        } else if let Ok(a) = self.alias() {
            if self.keep_alias {
                Ok(Yaml::Alias(a))
            } else {
                match anchors_get(&self.anchors, a.as_str()) {
                    Some(n) => {
                        proof {
                            let j = crate::anchors::key_index(anchor_entries(self.anchors), a@)->0;
                            crate::anchors::lemma_key_index(anchor_entries(self.anchors), a@);
                            assert(self.data_ok(anchor_entries(self.anchors)[j].1.yaml));
                        }
                        Ok(yaml_copy(&n.yaml))
                    },
                    None => self.err("anchor"),
                }
            }
        } else if let Ok(s) = self.string_quoted(39u8, q1.as_slice()) {
            Ok(Yaml::Str(s))
        } else if let Ok(s) = self.string_quoted(34u8, q2.as_slice()) {
            Ok(Yaml::Str(Self::escape(s.as_str())))
        } else if let Ok(s) = self.string_plain(level, inner) {
            let y = plain_keyword(s);
            proof {
                let d = old(self).doc@;
                let p = old(self).pos as int;
                let res = super::strings::plain_rest(d, p, inner, sum_widths(levels_set(old(self).indent@, level as int), level + 1), seq![]);
                if p < d.len() && no_number(d, p) && d[p] != 42u8 && d[p] != 39u8 && d[p] != 34u8
                    && !super::strings::plain_refused(d, p, inner) && super::strings::trim_end(res.0).len() > 0 {
                    lemma_plain_yaml(s, super::strings::trim_end(res.0), y);
                }
            }
            Ok(y)
        } else {
            match self.seq_flow(level) {
                Ok(y) => Ok(y),
                Err(PError::Mismatch) => match self.map_flow(level) {
                    Ok(y) => Ok(y),
                    Err(PError::Mismatch) => Ok(Yaml::Null),
                    Err(e) => Err(e),
                },
                Err(e) => Err(e),
            }
        }
    }

    /// Match flow sequence: `[`, items separated by `,`, and `]`.
    pub fn seq_flow(&mut self, level: usize) -> (r: PResult<Yaml>)
        requires
            old(self).wf(),
        ensures
            final(self).frame(old(self)),
            r matches Ok(y) ==> final(self).data_ok(y),
            r matches Ok(y) ==> y is Array && old(self).doc@[old(self).pos as int] == 91u8 && old(self).doc@[final(self).pos - 1] == 93u8,
            r is Ok ==> old(self).pos < final(self).pos,
            r matches Err(e) && e is Mismatch ==> final(self).pos == old(self).pos,
            !(old(self).pos < old(self).doc@.len() && old(self).doc@[old(self).pos as int] == 91u8) ==> (r matches Err(e) && e is Mismatch),
            ({
                let d = old(self).doc@;
                let p = old(self).pos as int;
                let q = space_end(d, p + 1);
                p < d.len() && d[p] == 91u8 && q < d.len() && d[q] == 93u8
                    ==> (r matches Ok(Yaml::Array(v)) && v@.len() == 0) && final(self).pos == q + 1
            }),
            ({
                let d = old(self).doc@;
                let p = old(self).pos as int;
                p < d.len() && d[p] == 91u8 && flow_words(d, p + 1) is Some ==> (r matches Ok(Yaml::Array(v))
                    && v@.len() == words_of(flow_words(d, p + 1)).len() && final(self).pos == words_end(flow_words(d, p + 1))
                    && forall|k: int| 0 <= k < v@.len() ==> flow_item_yaml(d, words_of(flow_words(d, p + 1))[k].0,
                        words_of(flow_words(d, p + 1))[k].1, #[trigger] v@[k].yaml))
            }),
        decreases old(self).doc@.len() - old(self).pos, 0nat,
    {
        let start = self.pos;
        let n = self.doc.len();
        if !(self.pos < n && self.doc[self.pos] == 91u8) {
            return Err(PError::Mismatch);
        }
        self.pos = self.pos + 1;
        let mut v: Vec<Node> = Vec::new();
        let ghost empty = space_end(self.doc@, start + 1) < n && self.doc@[space_end(self.doc@, start + 1)] == 93u8;
        let ghost d = self.doc@;
        let ghost fw = flow_words(d, start + 1);
        let ghost mut done: Seq<(int, int)> = seq![];
        loop
            invariant_except_break
                empty ==> self.pos == start + 1 && v@.len() == 0,
                fw is Some ==> (flow_words(d, self.pos as int) is Some && words_of(fw) == done + words_of(flow_words(d, self.pos as int))
                    && words_end(fw) == words_end(flow_words(d, self.pos as int))),
            invariant
                d == self.doc@,
                fw == flow_words(d, start + 1),
                fw is Some ==> v@.len() == done.len() && forall|k: int| 0 <= k < done.len()
                    ==> flow_item_yaml(d, done[k].0, done[k].1, #[trigger] v@[k].yaml),
                self.frame(old(self)),
                forall|k: int| 0 <= k < v@.len() ==> self.data_ok(#[trigger] v@[k].yaml),
                start == old(self).pos,
                start < self.pos <= n,
                n == self.doc@.len(),
                empty == (space_end(self.doc@, start + 1) < n && self.doc@[space_end(self.doc@, start + 1)] == 93u8),
                self.doc@[start as int] == 91u8,
            ensures
                start < self.pos && self.doc@[self.pos - 1] == 93u8,
                empty ==> v@.len() == 0 && self.pos == space_end(self.doc@, start + 1) + 1,
                fw is Some ==> words_of(fw) == done && self.pos == words_end(fw),
            decreases n - self.pos,
        {
            let p0 = self.pos;
            let _ = self.inv(TakeOpt::More(0));
            proof {
                super::grammar::lemma_run_end_props(d, p0 as int, 1);
            }
            if self.pos < n && self.doc[self.pos] == 93u8 {
                self.pos = self.pos + 1;
                proof {
                    if fw is Some {
                        assert(done + seq![] =~= done);
                    }
                }
                break;
            }
            let a = self.pos;
            proof {
                if fw is Some {
                    super::grammar::lemma_run_end_props(d, a as int, 5);
                }
            }
            let lv = if level < usize::MAX { level + 1 } else { level };
            let item = match self.scalar(lv, false, true) {
                Ok(node) => node,
                Err(PError::Mismatch) => { return self.err("flow sequence item"); },
                Err(e) => { return Err(e); },
            };
            let ghost vb = v@;
            v.push(item);
            let c = self.pos;
            let _ = self.inv(TakeOpt::More(0));
            proof {
                if fw is Some {
                    let wr = words_of(flow_words(d, p0 as int));
                    let done2 = done.push((a as int, c as int));
                    if c < n && self.doc@[c as int] == 44u8 {
                        let w2 = words_of(flow_words(d, c + 1));
                        assert(wr =~= seq![(a as int, c as int)] + w2);
                        assert(done + wr =~= done2 + w2);
                    } else {
                        assert(done + wr =~= done2);
                    }
                    assert forall|k: int| 0 <= k < done2.len() implies flow_item_yaml(d, done2[k].0, done2[k].1, #[trigger] v@[k].yaml) by {
                        if k < done.len() {
                            assert(done2[k] == done[k]);
                            assert(v@[k] == vb[k]);
                        }
                    }
                    done = done2;
                }
            }
            if self.pos < n && self.doc[self.pos] == 44u8 {
                self.pos = self.pos + 1;
            } else if self.pos < n && self.doc[self.pos] == 93u8 {
                self.pos = self.pos + 1;
                break;
            } else {
                self.pos = start;
                return Err(PError::Mismatch);
            }
        }
        proof {
            if !self.keep_alias {
                lemma_array_alias_free(v);
            }
        }
        Ok(Yaml::Array(v))
    }

    /// Match flow map: `{`, entries `key: value` separated by `,`, and `}`.
    #[verifier::rlimit(100)]
    #[verifier::spinoff_prover]
    pub fn map_flow(&mut self, level: usize) -> (r: PResult<Yaml>)
        requires
            old(self).wf(),
        ensures
            final(self).frame(old(self)),
            r matches Ok(y) ==> final(self).data_ok(y),
            r matches Ok(y) ==> y is Mapping && old(self).doc@[old(self).pos as int] == 123u8 && old(self).doc@[final(self).pos - 1] == 125u8,
            r is Ok ==> old(self).pos < final(self).pos,
            r matches Err(e) && e is Mismatch ==> final(self).pos == old(self).pos,
            !(old(self).pos < old(self).doc@.len() && old(self).doc@[old(self).pos as int] == 123u8) ==> (r matches Err(e) && e is Mismatch),
            ({
                let d = old(self).doc@;
                let p = old(self).pos as int;
                let q = space_end(d, p + 1);
                p < d.len() && d[p] == 123u8 && q < d.len() && d[q] == 125u8
                    ==> (r matches Ok(Yaml::Mapping(m)) && m@.len() == 0) && final(self).pos == q + 1
            }),
            ({
                let d = old(self).doc@;
                let p = old(self).pos as int;
                p < d.len() && d[p] == 123u8 && flow_word_at(d, space_end(d, p + 1))
                    ==> (r matches Err(PError::Terminate { name, .. }) && name@ == "flow map splitter"@)
            }),
            ({
                let d = old(self).doc@;
                let p = old(self).pos as int;
                let fp = flow_num_pairs(d, p + 1);
                p < d.len() && d[p] == 123u8 && fp is Some ==> (r matches Ok(Yaml::Mapping(m))
                    && num_pairs_map(d, words_of(fp), m@)) && final(self).pos == words_end(fp)
            }),
        decreases old(self).doc@.len() - old(self).pos, 0nat,
    {
        let start = self.pos;
        let n = self.doc.len();
        if !(self.pos < n && self.doc[self.pos] == 123u8) {
            return Err(PError::Mismatch);
        }
        self.pos = self.pos + 1;
        let mut m: Vec<(Node, Node)> = Vec::new();
        let lv = if level < usize::MAX { level + 1 } else { level };
        let ghost empty = space_end(self.doc@, start + 1) < n && self.doc@[space_end(self.doc@, start + 1)] == 125u8;
        let ghost fs = flow_word_at(self.doc@, space_end(self.doc@, start + 1));
        let ghost d = self.doc@;
        let ghost fp = flow_num_pairs(d, start + 1);
        let ghost mut done: Seq<(int, int)> = seq![];
        let ghost mut ks: Seq<Node> = seq![];
        let ghost mut vs: Seq<Node> = seq![];
        loop
            invariant_except_break
                empty ==> self.pos == start + 1 && m@.len() == 0,
                fp is Some ==> flow_num_pairs(d, self.pos as int) is Some
                    && words_of(fp) == done + words_of(flow_num_pairs(d, self.pos as int))
                    && words_end(fp) == words_end(flow_num_pairs(d, self.pos as int)),
            invariant
                d == self.doc@,
                fp == flow_num_pairs(d, start + 1),
                fp is Some ==> m@ == crate::yaml::map_of(ks, vs) && ks.len() == done.len() && vs.len() == done.len()
                    && forall|i: int| 0 <= i < done.len() ==> num_yaml(d, done[i].0, #[trigger] ks[i].yaml) && num_yaml(d, done[i].1, vs[i].yaml),
                fs == flow_word_at(self.doc@, space_end(self.doc@, start + 1)),
                fs ==> self.pos == start + 1,
                self.frame(old(self)),
                forall|k: int| 0 <= k < m@.len() ==> self.data_ok(#[trigger] m@[k].0.yaml) && self.data_ok(m@[k].1.yaml),
                start == old(self).pos,
                start < self.pos <= n,
                n == self.doc@.len(),
                empty == (space_end(self.doc@, start + 1) < n && self.doc@[space_end(self.doc@, start + 1)] == 125u8),
                self.doc@[start as int] == 123u8,
            ensures
                start < self.pos && self.doc@[self.pos - 1] == 125u8,
                empty ==> m@.len() == 0 && self.pos == space_end(self.doc@, start + 1) + 1,
                fp is Some ==> done == words_of(fp) && self.pos == words_end(fp),
            decreases n - self.pos,
        {
            let p0 = self.pos;
            let ghost done0 = done;
            let _ = self.inv(TakeOpt::More(0));
            proof {
                super::grammar::lemma_run_end_props(d, p0 as int, 1);
            }
            if self.pos < n && self.doc[self.pos] == 125u8 {
                self.pos = self.pos + 1;
                proof {
                    if fp is Some {
                        assert(done + seq![] =~= done);
                    }
                }
                break;
            }
            let ghost a = self.pos as int;
            let k = if self.complex_mapping().is_ok() {
                let k = match self.scalar(lv, false, true) {
                    Ok(node) => node,
                    Err(PError::Mismatch) => { return self.err("flow map key"); },
                    Err(e) => { return Err(e); },
                };
                let _ = self.inv(TakeOpt::More(0));
                k
            } else {
                match self.scalar_flow(lv, true) {
                    Ok(node) => node,
                    Err(PError::Mismatch) => { return self.err("flow map key"); },
                    Err(e) => { return Err(e); },
                }
            };
            if !(self.pos < n && self.doc[self.pos] == 58u8) {
                return self.err("flow map splitter");
            }
            self.pos = self.pos + 1;
            if self.bound().is_err() {
                return self.err("flow map splitter");
            }
            let v = match self.scalar(lv, false, true) {
                Ok(node) => node,
                Err(PError::Mismatch) => { return self.err("flow map value"); },
                Err(e) => { return Err(e); },
            };
            proof {
                let keep = self.keep_alias;
                lemma_map_insert_keeps(m@, k, v, |x: Node| keep || alias_free(yaml_view(x.yaml)));
            }
            let ghost m0 = m@;
            let ghost e2 = self.pos as int;
            proof {
                if fp is Some {
                    let b = match num_pair_at(d, a) {
                        Some((_, vb)) => vb,
                        None => 0,
                    };
                    let items = words_of(fp);
                    let idx = done0.len() as int;
                    let nx = flow_num_pairs(d, e2 + 1);
                    if d[e2] == 44u8 {
                        assert(words_of(flow_num_pairs(d, p0 as int)) =~= seq![(a, b)] + words_of(nx));
                        assert(items =~= done0.push((a, b)) + words_of(nx));
                    } else {
                        assert(words_of(flow_num_pairs(d, p0 as int)) =~= seq![(a, b)]);
                        assert(items =~= done0.push((a, b)));
                    }
                    assert(items[idx] == (a, b));
                    crate::yaml::lemma_map_of_push(ks, vs, k, v);
                    done = done0.push((a, b));
                    ks = ks.push(k);
                    vs = vs.push(v);
                }
            }
            map_insert(&mut m, k, v);
            let _ = self.inv(TakeOpt::More(0));
            if self.pos < n && self.doc[self.pos] == 44u8 {
                self.pos = self.pos + 1;
                proof {
                    if fp is Some {
                        assert(done + words_of(flow_num_pairs(d, self.pos as int)) =~= words_of(fp));
                    }
                }
            } else if self.pos < n && self.doc[self.pos] == 125u8 {
                self.pos = self.pos + 1;
                break;
            } else {
                self.pos = start;
                return Err(PError::Mismatch);
            }
        }
        proof {
            if !self.keep_alias {
                lemma_mapping_alias_free(m);
            }
            if fp is Some {
                assert(num_pairs_map(d, words_of(fp), m@));
            }
        }
        Ok(Yaml::Mapping(m))
    }

    /// Match block sequence: items `- item`, one per line at the indentation of `level`.
    /// The first item starts after a line break and defines the indentation if `nest`.
    /// The cursor stays before the line break after the last item.
    #[verifier::rlimit(100)]
    #[verifier::spinoff_prover]
    pub fn seq(&mut self, level: usize, nest: bool) -> (r: PResult<Yaml>)
        requires
            old(self).wf(),
        ensures
            final(self).frame(old(self)),
            r matches Ok(y) ==> final(self).data_ok(y),
            r matches Ok(y) ==> (y matches Yaml::Array(v) && v@.len() >= 1),
            r is Ok ==> old(self).pos < final(self).pos,
            r matches Err(e) && e is Mismatch ==> final(self).pos == old(self).pos,
            ({
                let d = old(self).doc@;
                let p = old(self).pos as int;
                !(p < d.len() && (is_space(d[p]) || d[p] == 35u8 || d[p] == 45u8)) ==> (r matches Err(e) && e is Mismatch)
                    && final(self).anchors == old(self).anchors && final(self).indent == old(self).indent
            }),
            ({
                let d = old(self).doc@;
                let p = old(self).pos as int;
                !nest && p + 1 < d.len() && d[p] == 45u8 && d[p + 1] == 32u8 && word_rest(d, p + 2)
                    ==> (r matches Ok(Yaml::Array(v)) && v@.len() == 1) && final(self).pos == d.len()
            }),
            ({
                let d = old(self).doc@;
                let p = old(self).pos as int;
                let ni = seq_items_at(d, p, old(self).indent@, level as int);
                level + 1 < usize::MAX && !nest && ni is Some ==> (r matches Ok(Yaml::Array(v)) && v@.len() == words_of(ni).len()
                    && final(self).pos == words_end(ni)
                    && forall|k: int| 0 <= k < v@.len() ==> kv_val_yaml(d, words_of(ni)[k].0, #[trigger] v@[k].yaml))
            }),
        decreases old(self).doc@.len() - old(self).pos, 5nat,
    {
        let start = self.pos;
        let n = self.doc.len();
        let lv = if level < usize::MAX { level + 1 } else { level };
        let mut v: Vec<Node> = Vec::new();
        let mut last: usize = start;
        let ghost d = self.doc@;
        let ghost one = !nest && start + 1 < n && d[start as int] == 45u8 && d[start + 1] == 32u8 && word_rest(d, start + 2);
        let ghost wd = sum_widths(levels_set(old(self).indent@, level as int), level + 1);
        let ghost w1 = sum_widths(levels_set(old(self).indent@, level + 2), level + 3);
        let ghost w2 = sum_widths(levels_set(levels_set(old(self).indent@, level as int), level + 2), level + 3);
        let ghost ni = seq_items(d, start as int, wd, w1, w2);
        let ghost nis = level + 1 < usize::MAX && !nest && ni is Some;
        let ghost mut done: Seq<(int, int)> = seq![];
        loop
            invariant
                wd == sum_widths(levels_set(old(self).indent@, level as int), level + 1),
                w1 == sum_widths(levels_set(old(self).indent@, level + 2), level + 3),
                w2 == sum_widths(levels_set(levels_set(old(self).indent@, level as int), level + 2), level + 3),
                ni == seq_items(d, start as int, wd, w1, w2),
                nis == (level + 1 < usize::MAX && !nest && ni is Some),
                level < usize::MAX ==> lv == level + 1,
                nis ==> self.indent@ == old(self).indent@ || self.indent@ == levels_set(old(self).indent@, level as int)
                    || self.indent@ == levels_set(old(self).indent@, level + 2)
                    || self.indent@ == levels_set(levels_set(old(self).indent@, level as int), level + 2),
                nis && v@.len() == 0 ==> self.indent@ == old(self).indent@,
                nis ==> v@.len() == done.len() && forall|k: int| 0 <= k < done.len() ==> kv_val_yaml(d, done[k].0, #[trigger] v@[k].yaml),
                nis && v@.len() > 0 ==> self.pos == last && seq_more(d, last as int, wd, w1, w2) is Some
                    && words_of(ni) == done + words_of(seq_more(d, last as int, wd, w1, w2))
                    && words_end(ni) == words_end(seq_more(d, last as int, wd, w1, w2)),
                self.frame(old(self)),
                forall|k: int| 0 <= k < v@.len() ==> self.data_ok(#[trigger] v@[k].yaml),
                start == old(self).pos,
                start <= self.pos <= n,
                start <= last <= self.pos,
                v@.len() > 0 ==> start < last,
                n == self.doc@.len(),
                d == self.doc@,
                one == (!nest && start + 1 < n && d[start as int] == 45u8 && d[start + 1] == 32u8 && word_rest(d, start + 2)),
                v@.len() == 0 ==> self.pos == start,
                v@.len() == 0 ==> self.anchors == old(self).anchors && self.indent == old(self).indent,
                v@.len() > 0 ==> start < n && (is_space(d[start as int]) || d[start as int] == 35u8 || d[start as int] == 45u8),
                one && v@.len() > 0 ==> v@.len() == 1 && last == n && self.pos == n,
            ensures
                start < last,
                v@.len() >= 1,
                one ==> v@.len() == 1 && last == n,
                nis ==> done == words_of(ni) && last == words_end(ni),
            decreases n - self.pos,
        {
            let item_start = self.pos;
            let ghost first_item = v@.len() == 0;
            let ghost last0 = last as int;
            let ghost done0 = done;
            if v.len() == 0 {
                if nest {
                    if self.gap(true).is_err() || self.ind_define(level).is_err() {
                        self.pos = start;
                        return Err(PError::Mismatch);
                    }
                } else if self.gap(true).is_ok() {
                    if self.ind(level).is_err() {
                        self.pos = start;
                        return Err(PError::Mismatch);
                    }
                }
                if !(self.pos < n && self.doc[self.pos] == 45u8) {
                    self.pos = start;
                    return Err(PError::Mismatch);
                }
                self.pos = self.pos + 1;
                if self.bound().is_err() {
                    self.pos = start;
                    return Err(PError::Mismatch);
                }
                proof {
                    if one {
                        super::grammar::lemma_run_end(d, start + 1, start + 2, 0);
                    }
                }
            } else {
                if self.at_end() {
                    proof {
                        if nis {
                            assert(done + seq![] =~= done);
                        }
                    }
                    break;
                }
                if self.gap(true).is_err() {
                    return self.err("sequence terminator");
                }
                proof {
                    super::grammar::lemma_levels_set_twice(old(self).indent@, level as int);
                    if nis {
                        assert(done + seq![] =~= done);
                        super::grammar::lemma_levels_set_shorter(old(self).indent@, level + 2, level as int);
                        super::grammar::lemma_levels_set_shorter(levels_set(old(self).indent@, level as int), level + 2, level as int);
                    }
                }
                if self.doc_end() || self.ind(level).is_err() {
                    self.pos = item_start;
                    break;
                }
                if !(self.pos < n && self.doc[self.pos] == 45u8) {
                    self.pos = item_start;
                    break;
                }
                self.pos = self.pos + 1;
                if self.bound().is_err() {
                    self.pos = item_start;
                    break;
                }
            }
            let ghost a0 = self.pos as int;
            let item = match self.scalar(lv, false, false) {
                Ok(node) => node,
                Err(PError::Mismatch) => { return self.err("sequence item"); },
                Err(e) => { return Err(e); },
            };
            let ghost vb = v@;
            let ghost e0 = self.pos as int;
            v.push(item);
            last = self.pos;
            proof {
                if nis {
                    let nm = seq_more(d, e0, wd, w1, w2);
                    if first_item {
                        assert(words_of(ni) =~= done0.push((a0, e0)) + words_of(nm));
                    } else {
                        assert(words_of(seq_more(d, last0, wd, w1, w2)) =~= seq![(a0, e0)] + words_of(nm));
                        assert(words_of(ni) =~= done0.push((a0, e0)) + words_of(nm));
                    }
                    done = done0.push((a0, e0));
                    assert forall|k: int| 0 <= k < done.len() implies kv_val_yaml(d, done[k].0, #[trigger] v@[k].yaml) by {
                        if k < done0.len() {
                            assert(v@[k] == vb[k]);
                        }
                    }
                }
            }
        }
        self.pos = last;
        proof {
            if !self.keep_alias {
                lemma_array_alias_free(v);
            }
        }
        Ok(Yaml::Array(v))
    }

    /// Match a map key: `? key` (a block scalar), or a flow scalar.
    fn map_key(&mut self, level: usize, lv: usize, inner: bool) -> (r: PResult<Node>)
        requires
            old(self).wf(),
        ensures
            final(self).frame(old(self)),
            r matches Ok(n) ==> final(self).data_ok(n.yaml),
            r is Ok ==> old(self).pos <= final(self).pos,
            r matches Err(e) && e is Mismatch ==> final(self).pos == old(self).pos,
            word_rest(old(self).doc@, old(self).pos as int) ==> r is Ok && final(self).pos == old(self).doc@.len(),
            word_rest(old(self).doc@, old(self).pos as int) ==> (r matches Ok(n) && word_yaml(old(self).doc@, old(self).pos as int, n.yaml)),
            no_scalar_at(old(self).doc@, old(self).pos as int) ==> (r matches Ok(n) && n.yaml is Null) && final(self).pos == old(self).pos,
            key_at(old(self).doc@, old(self).pos as int) ==> r is Ok && final(self).pos == word_end(old(self).doc@, old(self).pos as int),
            key_at(old(self).doc@, old(self).pos as int) ==> final(self).indent@ == old(self).indent@ && final(self).anchors == old(self).anchors,
            key_at(old(self).doc@, old(self).pos as int) ==> (r matches Ok(n) && word_yaml_to(old(self).doc@, old(self).pos as int,
                word_end(old(self).doc@, old(self).pos as int), n.yaml)),
            inner && flow_word_at(old(self).doc@, old(self).pos as int) ==> (r matches Ok(n) && final(self).pos == word_end(old(self).doc@, old(self).pos as int)
                && word_yaml_to(old(self).doc@, old(self).pos as int, word_end(old(self).doc@, old(self).pos as int), n.yaml)),
            alias_rest(old(self).doc@, old(self).pos as int) ==> alias_outcome(old(self).keep_alias, old(self).anchors,
                alias_name(old(self).doc@, old(self).pos as int), node_data(r)) && (r is Ok ==> final(self).pos == old(self).doc@.len()),
            num_line_at(old(self).doc@, old(self).pos as int) ==> (r matches Ok(n) && num_yaml(old(self).doc@, old(self).pos as int, n.yaml))
                && final(self).pos == num_end(old(self).doc@, old(self).pos as int)->0 && final(self).indent == old(self).indent
                && final(self).anchors == old(self).anchors,
            num_flow_at(old(self).doc@, old(self).pos as int) ==> (r matches Ok(n) && num_yaml(old(self).doc@, old(self).pos as int, n.yaml))
                && final(self).pos == num_end(old(self).doc@, old(self).pos as int)->0 && final(self).indent == old(self).indent
                && final(self).anchors == old(self).anchors,
            ({
                let d = old(self).doc@;
                let p = old(self).pos as int;
                !inner && word_line_at(d, p, sum_widths(levels_set(old(self).indent@, lv as int), lv + 1))
                    ==> (r matches Ok(n) && plain_yaml(d.subrange(p, word_end(d, p)), n.yaml)) && final(self).pos == word_end(d, p)
                    && final(self).anchors == old(self).anchors
                    && (final(self).indent@ == old(self).indent@ || final(self).indent@ == levels_set(old(self).indent@, lv as int))
            }),
        decreases old(self).doc@.len() - old(self).pos, 4nat,
    {
        let start = self.pos;
        if self.complex_mapping().is_ok() {
            let k = match self.scalar(lv, true, inner) {
                Ok(node) => node,
                Err(PError::Mismatch) => { return self.err("map key"); },
                Err(e) => { return Err(e); },
            };
            let save = self.pos;
            if self.gap(true).is_ok() {
                if self.ind(level).is_err() {
                    self.pos = save;
                }
            }
            Ok(k)
        } else {
            self.scalar_flow(lv, inner)
        }
    }

    /// Match block map: entries `key: value`, one per line at the indentation of `level`.
    /// The first entry starts after a line break and defines the indentation if `nest`;
    /// a first key without `:` is the data itself. The cursor stays before the line break
    /// after the last entry.
    #[verifier::rlimit(100)]
    #[verifier::spinoff_prover]
    pub fn map(&mut self, level: usize, nest: bool, inner: bool) -> (r: PResult<Yaml>)
        requires
            old(self).wf(),
        ensures
            final(self).frame(old(self)),
            r matches Ok(y) ==> final(self).data_ok(y),
            r is Ok ==> old(self).pos <= final(self).pos,
            r matches Err(e) && e is Mismatch ==> final(self).pos == old(self).pos,
            nest && !gap_ok(old(self).doc@, old(self).pos as int, true) ==> (r matches Err(e) && e is Mismatch)
                && final(self).anchors == old(self).anchors && final(self).indent == old(self).indent,
            no_scalar_at(old(self).doc@, old(self).pos as int) && !gap_ok(old(self).doc@, old(self).pos as int, true) ==> (r matches Err(e) && e is Mismatch),
            !nest && word_rest(old(self).doc@, old(self).pos as int) ==> r is Ok && final(self).pos == old(self).doc@.len(),
            !nest && word_rest(old(self).doc@, old(self).pos as int) ==> (r matches Ok(y) && word_yaml(old(self).doc@, old(self).pos as int, y)),
            ({
                let d = old(self).doc@;
                let p = old(self).pos as int;
                let ki = kv_items(d, p, sum_widths(levels_set(old(self).indent@, level as int), level + 1),
                    sum_widths(levels_set(old(self).indent@, level + 1), level + 2),
                    sum_widths(levels_set(levels_set(old(self).indent@, level as int), level + 1), level + 2));
                level < usize::MAX && !nest && ki is Some
                    ==> (r matches Ok(Yaml::Mapping(m)) && kv_map(d, kv_of(ki), m@)) && final(self).pos == kv_end(ki)
            }),
            !nest && map_split_at(old(self).doc@, old(self).pos as int, sum_widths(levels_set(old(self).indent@, level as int), level + 1))
                ==> (r matches Err(PError::Terminate { name, .. }) && name@ == "map splitter"@),
            level < usize::MAX && !nest && map_split_word_at(old(self).doc@, old(self).pos as int,
                sum_widths(levels_set(old(self).indent@, level as int), level + 1),
                sum_widths(levels_set(old(self).indent@, level + 1), level + 2))
                ==> (r matches Err(PError::Terminate { name, .. }) && name@ == "map splitter"@),
            !nest && num_flow_at(old(self).doc@, old(self).pos as int) && old(self).doc@[num_end(old(self).doc@, old(self).pos as int)->0] != 58u8
                ==> (r matches Ok(y) && num_yaml(old(self).doc@, old(self).pos as int, y))
                && final(self).pos == num_end(old(self).doc@, old(self).pos as int)->0 && final(self).indent == old(self).indent
                && final(self).anchors == old(self).anchors,
            !nest && num_line_at(old(self).doc@, old(self).pos as int) ==> (r matches Ok(y) && num_yaml(old(self).doc@, old(self).pos as int, y))
                && final(self).pos == num_end(old(self).doc@, old(self).pos as int)->0 && final(self).indent == old(self).indent
                && final(self).anchors == old(self).anchors,
            !nest && alias_rest(old(self).doc@, old(self).pos as int) ==> alias_outcome(old(self).keep_alias, old(self).anchors,
                alias_name(old(self).doc@, old(self).pos as int), r) && (r is Ok ==> final(self).pos == old(self).doc@.len()),
            !nest && inner && flow_word_at(old(self).doc@, old(self).pos as int) ==> (r matches Ok(y) && final(self).pos == word_end(old(self).doc@, old(self).pos as int)
                && word_yaml_to(old(self).doc@, old(self).pos as int, word_end(old(self).doc@, old(self).pos as int), y)),
            ({
                let d = old(self).doc@;
                let p = old(self).pos as int;
                !nest && key_at(d, p) && word_rest(d, word_end(d, p) + 2)
                    ==> (r matches Ok(Yaml::Mapping(m)) && m@.len() == 1) && final(self).pos == d.len()
            }),
            ({
                let d = old(self).doc@;
                let p = old(self).pos as int;
                level < usize::MAX && !nest && !inner && word_line_at(d, p, sum_widths(levels_set(old(self).indent@, level + 1), level + 2))
                    ==> (r matches Ok(y) && plain_yaml(d.subrange(p, word_end(d, p)), y)) && final(self).pos == word_end(d, p)
                    && final(self).anchors == old(self).anchors
                    && (final(self).indent@ == old(self).indent@ || final(self).indent@ == levels_set(old(self).indent@, level + 1))
            }),
        decreases old(self).doc@.len() - old(self).pos, 5nat,
    {
        proof {
            if level < usize::MAX && word_line_at(self.doc@, self.pos as int, sum_widths(levels_set(self.indent@, level + 1), level + 2)) {
                lemma_word_line_term(self.doc@, self.pos as int, sum_widths(levels_set(self.indent@, level + 1), level + 2));
            }
        }
        let start = self.pos;
        let n = self.doc.len();
        let lv = if level < usize::MAX { level + 1 } else { level };
        let mut m: Vec<(Node, Node)> = Vec::new();
        let mut last: usize = start;
        let mut first = true;
        let ghost d = self.doc@;
        let ghost kv = !nest && key_at(d, start as int) && word_rest(d, word_end(d, start as int) + 2);
        let ghost wdm = sum_widths(levels_set(old(self).indent@, level as int), level + 1);
        let ghost wv2 = sum_widths(levels_set(levels_set(old(self).indent@, level as int), level + 1), level + 2);
        let ghost ki = kv_items(d, start as int, wdm, sum_widths(levels_set(old(self).indent@, level + 1), level + 2), wv2);
        let ghost kvs = level < usize::MAX && !nest && ki is Some;
        let ghost spl = !nest && map_split_at(d, start as int, wdm);
        let ghost espl = num_end(d, blank_end(d, word_end(d, start as int) + 1))->0;
        let ghost wv = sum_widths(levels_set(old(self).indent@, level + 1), level + 2);
        let ghost splw = level < usize::MAX && !nest && map_split_word_at(d, start as int, wdm, wv);
        let ghost wl = level < usize::MAX && !nest && !inner && word_line_at(d, start as int, wv);
        let ghost espw = word_end(d, blank_end(d, word_end(d, start as int) + 1));
        let ghost mut done: Seq<(int, int, int)> = seq![];
        let ghost mut ks: Seq<Node> = seq![];
        let ghost mut vs: Seq<Node> = seq![];
        loop
            invariant
                wdm == sum_widths(levels_set(old(self).indent@, level as int), level + 1),
                wv2 == sum_widths(levels_set(levels_set(old(self).indent@, level as int), level + 1), level + 2),
                ki == kv_items(d, start as int, wdm, wv, wv2),
                kvs == (level < usize::MAX && !nest && ki is Some),
                key_at(d, start as int) ==> !gap_ok(d, start as int, true),
                spl ==> self.indent@ == old(self).indent@ || self.indent@ == levels_set(old(self).indent@, level as int),
                kvs ==> self.indent@ == old(self).indent@ || self.indent@ == levels_set(old(self).indent@, level as int)
                    || self.indent@ == levels_set(old(self).indent@, level + 1)
                    || self.indent@ == levels_set(levels_set(old(self).indent@, level as int), level + 1),
                spl == (!nest && map_split_at(d, start as int, wdm)),
                espl == num_end(d, blank_end(d, word_end(d, start as int) + 1))->0,
                spl && !first ==> self.pos == last && last == espl,
                wv == sum_widths(levels_set(old(self).indent@, level + 1), level + 2),
                level < usize::MAX ==> lv == level + 1,
                splw == (level < usize::MAX && !nest && map_split_word_at(d, start as int, wdm, wv)),
                espw == word_end(d, blank_end(d, word_end(d, start as int) + 1)),
                splw && !first ==> self.pos == last && last == espw,
                wl == (level < usize::MAX && !nest && !inner && word_line_at(d, start as int, wv)),
                wl ==> first,
                splw ==> self.indent@ == old(self).indent@ || self.indent@ == levels_set(old(self).indent@, level as int)
                    || self.indent@ == levels_set(old(self).indent@, level + 1),
                kvs ==> m@ == crate::yaml::map_of(ks, vs) && ks.len() == done.len() && vs.len() == done.len()
                    && forall|i: int| 0 <= i < done.len() ==> word_yaml_to(d, done[i].0, done[i].1, #[trigger] ks[i].yaml) && kv_val_yaml(d, done[i].2, vs[i].yaml),
                kvs && first ==> done.len() == 0,
                kvs && !first ==> self.pos == last && kv_more(d, last as int, wdm, wv, wv2) is Some
                    && kv_of(ki) == done + kv_of(kv_more(d, last as int, wdm, wv, wv2))
                    && kv_end(ki) == kv_end(kv_more(d, last as int, wdm, wv, wv2)),
                self.frame(old(self)),
                forall|k: int| 0 <= k < m@.len() ==> self.data_ok(#[trigger] m@[k].0.yaml) && self.data_ok(m@[k].1.yaml),
                start == old(self).pos,
                start <= self.pos <= n,
                start <= last <= self.pos,
                !first ==> start < self.pos,
                first ==> self.pos == start,
                !first ==> !word_rest(self.doc@, start as int),
                !first ==> !(no_scalar_at(self.doc@, start as int) && !gap_ok(self.doc@, start as int, true)),
                !first ==> !(nest && !gap_ok(self.doc@, start as int, true)),
                word_rest(self.doc@, start as int) ==> !gap_ok(self.doc@, start as int, true),
                flow_word_at(self.doc@, start as int) ==> !gap_ok(self.doc@, start as int, true),
                !first ==> !(!nest && inner && flow_word_at(self.doc@, start as int)),
                !first ==> !(!nest && alias_rest(self.doc@, start as int)),
                alias_rest(self.doc@, start as int) ==> !gap_ok(self.doc@, start as int, true),
                first ==> self.anchors == old(self).anchors && self.indent == old(self).indent,
                !first ==> !(!nest && num_line_at(self.doc@, start as int)),
                !first ==> !(!nest && num_flow_at(self.doc@, start as int) && self.doc@[num_end(self.doc@, start as int)->0] != 58u8),
                num_flow_at(self.doc@, start as int) ==> !gap_ok(self.doc@, start as int, true),
                num_line_at(self.doc@, start as int) ==> !gap_ok(self.doc@, start as int, true),
                n == self.doc@.len(),
                d == self.doc@,
                kv == (!nest && key_at(d, start as int) && word_rest(d, word_end(d, start as int) + 2)),
                kv && !first ==> m@.len() == 1 && last == n && self.pos == n,
                first ==> m@.len() == 0,
            ensures
                !first,
                kv ==> m@.len() == 1 && last == n,
                kvs ==> done == kv_of(ki) && last == kv_end(ki),
                !spl,
                !splw,
                !wl,
            decreases n - self.pos,
        {
            let item_start = self.pos;
            let ghost first_it = first;
            let ghost last0 = last as int;
            let ghost done0 = done;
            let ghost mut a0: int = 0;
            let ghost mut c0: int = 0;
            let k = if first {
                if nest {
                    if self.gap(true).is_err() || self.ind_define(level).is_err() {
                        self.pos = start;
                        return Err(PError::Mismatch);
                    }
                    if level > 0 && self.indent[level] == 0 {
                        self.pos = start;
                        return Err(PError::Mismatch);
                    }
                } else if self.gap(true).is_ok() {
                    if self.ind(level).is_err() {
                        self.pos = start;
                        return Err(PError::Mismatch);
                    }
                }
                proof {
                    a0 = self.pos as int;
                }
                let k = match self.map_key(level, lv, inner) {
                    Ok(node) => node,
                    Err(PError::Mismatch) => {
                        self.pos = start;
                        return Err(PError::Mismatch);
                    },
                    Err(e) => { return Err(e); },
                };
                let after_key = self.pos;
                proof {
                    c0 = self.pos as int;
                }
                if !(self.pos < n && self.doc[self.pos] == 58u8) {
                    if after_key == start {
                        return Err(PError::Mismatch);
                    }
                    return Ok(k.yaml);
                }
                self.pos = self.pos + 1;
                if self.bound().is_err() {
                    self.pos = after_key;
                    if after_key == start {
                        return Err(PError::Mismatch);
                    }
                    return Ok(k.yaml);
                }
                proof {
                    if kv {
                        super::grammar::lemma_run_end(d, word_end(d, start as int) + 1, word_end(d, start as int) + 2, 0);
                    }
                }
                k
            } else {
                if self.at_end() {
                    proof {
                        if kvs {
                            assert(done + seq![] =~= done);
                        }
                    }
                    break;
                }
                if self.gap(true).is_err() {
                    return self.err("map terminator");
                }
                proof {
                    super::grammar::lemma_levels_set_twice(old(self).indent@, level as int);
                    if kvs {
                        assert(done + seq![] =~= done);
                        super::grammar::lemma_levels_set_shorter(old(self).indent@, level + 1, level as int);
                        super::grammar::lemma_levels_set_shorter(levels_set(old(self).indent@, level as int), level + 1, level as int);
                    }
                }
                if self.doc_end() || self.ind(level).is_err() {
                    self.pos = item_start;
                    break;
                }
                proof {
                    a0 = self.pos as int;
                }
                let k = match self.map_key(level, lv, inner) {
                    Ok(node) => node,
                    Err(PError::Mismatch) => { return self.err("map key"); },
                    Err(e) => { return Err(e); },
                };
                proof {
                    c0 = self.pos as int;
                }
                if !(self.pos < n && self.doc[self.pos] == 58u8) {
                    return self.err("map splitter");
                }
                self.pos = self.pos + 1;
                if self.bound().is_err() {
                    return self.err("map splitter");
                }
                k
            };
            proof {
                if kvs {
                    super::grammar::lemma_levels_set_twice(old(self).indent@, level as int);
                    super::grammar::lemma_levels_set_shorter(old(self).indent@, level + 1, level as int);
                    super::grammar::lemma_levels_set_shorter(levels_set(old(self).indent@, level as int), level + 1, level as int);
                }
            }
            let v = match self.scalar(lv, true, false) {
                Ok(node) => node,
                Err(PError::Mismatch) => { return self.err("map value"); },
                Err(e) => { return Err(e); },
            };
            proof {
                let keep = self.keep_alias;
                lemma_map_insert_keeps(m@, k, v, |x: Node| keep || alias_free(yaml_view(x.yaml)));
            }
            let ghost e0 = self.pos as int;
            let ghost m0 = m@;
            proof {
                if kvs {
                    let items = kv_of(ki);
                    let idx = done0.len() as int;
                    let nm = kv_more(d, e0, wdm, wv, wv2);
                    if first_it {
                        assert(items =~= done0.push((a0, c0, blank_end(d, c0 + 1))) + kv_of(nm));
                    } else {
                        assert(kv_of(kv_more(d, last0, wdm, wv, wv2)) =~= seq![(a0, c0, blank_end(d, c0 + 1))] + kv_of(nm));
                        assert(items =~= done0.push((a0, c0, blank_end(d, c0 + 1))) + kv_of(nm));
                    }
                    assert(items[idx] == (a0, c0, blank_end(d, c0 + 1)));
                    assert(word_yaml_to(d, items[idx].0, items[idx].1, k.yaml));
                    assert(kv_val_yaml(d, items[idx].2, v.yaml));
                    crate::yaml::lemma_map_of_push(ks, vs, k, v);
                    done = done0.push((a0, c0, blank_end(d, c0 + 1)));
                    ks = ks.push(k);
                    vs = vs.push(v);
                }
            }
            map_insert(&mut m, k, v);
            last = self.pos;
            first = false;
        }
        self.pos = last;
        Ok(Yaml::Mapping(m))
    }

    /// Match one doc block: the root indentation, a node, and an optional `...`.
    #[verifier::rlimit(100)]
    #[verifier::spinoff_prover]
    pub fn doc(&mut self) -> (r: PResult<Node>)
        requires
            old(self).wf(),
        ensures
            final(self).frame(old(self)),
            r matches Ok(n) ==> final(self).data_ok(n.yaml),
            r is Ok ==> old(self).pos <= final(self).pos,
            r matches Err(e) && e is Mismatch ==> final(self).pos == old(self).pos,
            word_rest(old(self).doc@, old(self).pos as int) ==> r is Ok && final(self).pos == old(self).doc@.len(),
            word_rest(old(self).doc@, old(self).pos as int) ==> (r matches Ok(n) && word_yaml(old(self).doc@, old(self).pos as int, n.yaml)),
            old(self).pos == old(self).doc@.len() ==> (r matches Ok(n) && n.yaml is Null) && final(self).pos == old(self).pos,
            alias_rest(old(self).doc@, old(self).pos as int) ==> alias_outcome(old(self).keep_alias, old(self).anchors,
                alias_name(old(self).doc@, old(self).pos as int), node_data(r)) && (r is Ok ==> final(self).pos == old(self).doc@.len()),
            seq_doc(old(self).doc@, old(self).pos as int) ==> (r matches Ok(n)
                && seq_yaml(old(self).doc@, seq_root(old(self).doc@, old(self).pos as int), n.yaml)
                && final(self).pos == words_end(seq_root(old(self).doc@, old(self).pos as int))),
            seq_first_doc(old(self).doc@, old(self).pos as int) ==> (r matches Ok(n)
                && seq_yaml(old(self).doc@, seq_root(old(self).doc@, old(self).pos as int), n.yaml)
                && final(self).pos == words_end(seq_root(old(self).doc@, old(self).pos as int))),
            kv_doc(old(self).doc@, old(self).pos as int) ==> (r matches Ok(n) && (n.yaml matches Yaml::Mapping(m)
                && kv_map(old(self).doc@, kv_of(kv_root(old(self).doc@, old(self).pos as int)), m@)))
                && final(self).pos == kv_end(kv_root(old(self).doc@, old(self).pos as int)),
    {
        let start = self.pos;
        if self.ind_define(0).is_err() {
            return Err(PError::Mismatch);
        }
        proof {
            if seq_doc(self.doc@, start as int) || seq_first_doc(self.doc@, start as int) {
                assert(old(self).doc@[start as int] == 45u8);
                assert(self.pos == start);
                assert(levels_set(self.indent@, 0) =~= self.indent@);
                assert(sum_widths(levels_set(self.indent@, 0), 1) == 0);
                assert(self.indent@.len() == 1);
                assert(sum_widths(self.indent@, 1) == self.indent@[0]) by {
                    reveal_with_fuel(sum_widths, 2);
                }
                assert(self.indent@[0] == 0);
                assert(levels_set(self.indent@, 2) =~= seq![0usize, 2usize, 2usize]);
                assert(sum_widths(seq![0usize, 2usize, 2usize], 3) == 4) by {
                    reveal_with_fuel(sum_widths, 4);
                }
            }
            if kv_doc(self.doc@, start as int) {
                assert(is_alnum(old(self).doc@[start as int]));
                assert(self.pos == start);
                assert(levels_set(self.indent@, 0) =~= self.indent@);
                assert(sum_widths(levels_set(self.indent@, 0), 1) == 0);
                assert(self.indent@.len() == 1);
                assert(sum_widths(self.indent@, 1) == self.indent@[0]) by {
                    reveal_with_fuel(sum_widths, 2);
                }
                assert(self.indent@[0] == 0);
                assert(levels_set(self.indent@, 1) =~= seq![0usize, 2usize]);
                assert(sum_widths(seq![0usize, 2usize], 2) == 2) by {
                    reveal_with_fuel(sum_widths, 3);
                }
            }
        }
        let ret = match self.scalar(0, false, false) {
            Ok(node) => node,
            Err(PError::Mismatch) => {
                self.pos = start;
                return Err(PError::Mismatch);
            },
            Err(e) => { return Err(e); },
        };
        let save = self.pos;
        let _ = self.gap(true);
        let n = self.doc.len();
        if self.pos <= n && n - self.pos >= 3 && self.doc[self.pos] == 46u8 && self.doc[self.pos + 1] == 46u8 && self.doc[self.pos + 2] == 46u8 {
            self.pos = self.pos + 3;
        } else {
            self.pos = save;
        }
        Ok(ret)
    }

    /// Skips blank lines and comments if there are any.
    fn skip_gap(&mut self)
        requires
            old(self).wf(),
        ensures
            final(self).keeps(old(self)),
            final(self).indent == old(self).indent,
            old(self).pos <= final(self).pos,
            gap_ok(old(self).doc@, old(self).pos as int, true) ==> old(self).pos < final(self).pos
                && super::grammar::is_nl(old(self).doc@[final(self).pos - 1])
                && final(self).pos == gap_lines(old(self).doc@, old(self).pos as int, true).1,
            !gap_ok(old(self).doc@, old(self).pos as int, true) ==> final(self).pos == old(self).pos,
    {
        let _ = self.gap(true);
    }

    /// Matches a document start marker `---` if there is one.
    fn doc_start(&mut self) -> (b: bool)
        requires
            old(self).wf(),
        ensures
            final(self).keeps(old(self)),
            final(self).indent == old(self).indent,
            b ==> final(self).pos == old(self).pos + 3,
            !b ==> final(self).pos == old(self).pos,
            b == is_prefix_at(old(self).doc@, old(self).pos as int, seq![45u8, 45u8, 45u8]),
    {
        let n = self.doc.len();
        if self.pos <= n && n - self.pos >= 3 && self.doc[self.pos] == 45u8 && self.doc[self.pos + 1] == 45u8 && self.doc[self.pos + 2] == 45u8 {
            self.pos = self.pos + 3;
            true
        } else {
            false
        }
    }

    /// YAML entry point: the directives, then the documents separated by `---`.
    pub fn parse(&mut self) -> (r: PResult<Vec<Node>>)
        requires
            old(self).wf(),
        ensures
            final(self).wf(),
            final(self).same_doc(old(self)),
            r is Ok ==> old(self).pos <= final(self).pos,
            r matches Ok(v) ==> v@.len() >= 1 && forall|i: int| 0 <= i < v@.len() ==> final(self).data_ok(#[trigger] v@[i].yaml),
            r is Err ==> r->Err_0 is Terminate,
            old(self).pos == old(self).doc@.len() ==> (r matches Ok(v) && v@.len() == 1 && v@[0].yaml is Null),
            word_rest(old(self).doc@, old(self).pos as int)
                ==> (r matches Ok(v) && v@.len() == 1 && word_yaml(old(self).doc@, old(self).pos as int, v@[0].yaml)),
            alias_rest(old(self).doc@, old(self).pos as int) ==> alias_outcome(old(self).keep_alias, old(self).anchors,
                alias_name(old(self).doc@, old(self).pos as int), single_doc(r)),
            seq_doc(old(self).doc@, old(self).pos as int) ==> (r matches Ok(v) && v@.len() == 1
                && seq_yaml(old(self).doc@, seq_root(old(self).doc@, old(self).pos as int), v@[0].yaml)),
            seq_first_doc(old(self).doc@, old(self).pos as int) ==> (r matches Ok(v)
                ==> seq_yaml(old(self).doc@, seq_root(old(self).doc@, old(self).pos as int), v@[0].yaml)),
            seq_doc_unsplit(old(self).doc@, old(self).pos as int)
                ==> (r matches Err(PError::Terminate { name, .. }) && name@ == "document splitter"@),
            kv_only_doc(old(self).doc@, old(self).pos as int) ==> (r matches Ok(v) && v@.len() == 1
                && (v@[0].yaml matches Yaml::Mapping(m)
                && kv_map(old(self).doc@, kv_of(kv_root(old(self).doc@, body_start(old(self).doc@, old(self).pos as int))), m@))),
            seq_only_doc(old(self).doc@, old(self).pos as int) ==> (r matches Ok(v) && v@.len() == 1
                && seq_yaml(old(self).doc@, seq_root(old(self).doc@, body_start(old(self).doc@, old(self).pos as int)), v@[0].yaml)),
    {
        let n = self.doc.len();
        let ghost d = self.doc@;
        let ghost p0 = self.pos as int;
        let ghost empty = p0 == n;
        let ghost word = word_rest(d, p0) || alias_rest(d, p0);
        let ghost nd = seq_doc(d, p0);
        let ghost nf = seq_first_doc(d, p0);
        let ghost ns = seq_doc_unsplit(d, p0);
        let ghost ko = kv_only_doc(d, p0);
        let ghost so = seq_only_doc(d, p0);
        let ghost bs = body_start(d, p0);
        loop
            invariant
                self.wf(),
                self.same_doc(old(self)),
                old(self).pos <= self.pos <= n,
                n == self.doc@.len(),
                d == self.doc@,
                p0 == old(self).pos,
                empty == (p0 == n),
                word == (word_rest(d, p0) || alias_rest(d, p0)),
                nd == seq_doc(d, p0),
                nf == seq_first_doc(d, p0),
                ko == kv_only_doc(d, p0),
                so == seq_only_doc(d, p0),
                empty || word || nd || nf || ko || so ==> self.pos == p0,
                self.anchors == old(self).anchors,
            decreases n - self.pos,
        {
            match self.directive() {
                Ok(()) => {},
                Err(PError::Mismatch) => { break; },
                Err(e) => { return Err(e); },
            }
        }
        self.skip_gap();
        proof {
            if word {
                assert(!is_prefix_at(d, p0, seq![45u8, 45u8, 45u8])) by {
                    assert(seq![45u8, 45u8, 45u8][0] == 45u8);
                }
            }
            if nd || nf {
                assert(!is_prefix_at(d, p0, seq![45u8, 45u8, 45u8])) by {
                    assert(seq![45u8, 45u8, 45u8][1] == 45u8);
                }
            }
        }
        let ghost p1 = self.pos as int;
        let _ = self.doc_start();
        self.skip_gap();
        proof {
            if ko || so {
                assert(p1 == gap_end(d, p0));
                assert(self.pos == bs);
            }
        }
        let mut v: Vec<Node> = Vec::new();
        let first = match self.doc() {
            Ok(node) => node,
            Err(PError::Mismatch) => { return self.err("document"); },
            Err(e) => { return Err(e); },
        };
        v.push(first);
        let ghost mut at_first = true;
        loop
            invariant_except_break
                nd ==> self.pos == words_end(seq_root(d, p0)),
                nf && at_first ==> self.pos == words_end(seq_root(d, p0)),
                ns ==> at_first,
                ko ==> self.pos == kv_end(kv_root(d, bs)),
                so ==> self.pos == words_end(seq_root(d, bs)),
            invariant
                nf == seq_first_doc(d, p0),
                ns == seq_doc_unsplit(d, p0),
                nf ==> seq_yaml(d, seq_root(d, p0), v@[0].yaml),
                ko == kv_only_doc(d, p0),
                bs == body_start(d, p0),
                ko ==> v@.len() == 1 && (v@[0].yaml matches Yaml::Mapping(m) && kv_map(d, kv_of(kv_root(d, bs)), m@)),
                so == seq_only_doc(d, p0),
                so ==> v@.len() == 1 && seq_yaml(d, seq_root(d, bs), v@[0].yaml),
                self.wf(),
                v@.len() >= 1,
                d == self.doc@,
                d == old(self).doc@,
                p0 == old(self).pos,
                empty == (p0 == n),
                word == (word_rest(d, p0) || alias_rest(d, p0)),
                empty ==> v@.len() == 1 && v@[0].yaml is Null && self.pos == n,
                word ==> v@.len() == 1 && self.pos == n,
                nd == seq_doc(d, p0),
                nd ==> v@.len() == 1 && seq_yaml(d, seq_root(d, p0), v@[0].yaml),
                word_rest(d, p0) ==> word_yaml(d, p0, v@[0].yaml),
                alias_rest(d, p0) ==> alias_outcome(old(self).keep_alias, old(self).anchors, alias_name(d, p0), Ok(v@[0].yaml)),
                forall|i: int| 0 <= i < v@.len() ==> self.data_ok(#[trigger] v@[i].yaml),
                self.same_doc(old(self)),
                old(self).pos <= self.pos <= n,
                n == self.doc@.len(),
            ensures
                !ns,
            decreases n - self.pos,
        {
            self.skip_gap();
            if self.pos == n {
                break;
            }
            if !self.doc_start() {
                return self.err("document splitter");
            }
            self.skip_gap();
            let d = match self.doc() {
                Ok(node) => node,
                Err(PError::Mismatch) => { return self.err("document"); },
                Err(e) => { return Err(e); },
            };
            v.push(d);
            proof {
                at_first = false;
            }
        }
        Ok(v)
    }
}

/// The message of a parser error: `invalid name: ` and the indicated position, or
/// `not matched`.
pub fn error_message(e: PError) -> (s: String)
    ensures
        match e {
            PError::Terminate { name, msg } => s@ == "invalid "@ + name@ + ": \n\n"@ + msg@,
            PError::Mismatch => s@ == "not matched"@,
        },
{
    match e {
        PError::Terminate { name, msg } => {
            let mut s = String::from_str("invalid ");
            s.append(name);
            s.append(": \n\n");
            s.append(msg.as_str());
            s
        },
        PError::Mismatch => String::from_str("not matched"),
    }
}

/// Parses a YAML document into nodes, replacing each alias with the data of its anchor;
/// gives the nodes of the documents and the anchors, or the error message. No alias is
/// left in the nodes or in the anchored nodes.
pub fn parse(doc: &str) -> (r: Result<(Vec<Node>, crate::anchors::Anchors), String>)
    ensures
        r matches Ok((v, m)) ==> v@.len() >= 1
            && (forall|i: int| 0 <= i < v@.len() ==> alias_free(yaml_view(#[trigger] v@[i].yaml)))
            && (forall|i: int| 0 <= i < anchor_entries(m).len() ==> alias_free(yaml_view(#[trigger] anchor_entries(m)[i].1.yaml))),
        r matches Err(s) ==> s@.len() >= 8 && s@.subrange(0, 8) == seq!['i', 'n', 'v', 'a', 'l', 'i', 'd', ' '],
        doc.spec_bytes().len() == 0 ==> (r matches Ok((v, _)) && v@.len() == 1 && v@[0].yaml is Null),
        word_rest(doc.spec_bytes(), 0) ==> (r matches Ok((v, _)) && v@.len() == 1 && word_yaml(doc.spec_bytes(), 0, v@[0].yaml)),
        seq_doc(doc.spec_bytes(), 0) ==> (r matches Ok((v, _)) && v@.len() == 1
            && seq_yaml(doc.spec_bytes(), seq_root(doc.spec_bytes(), 0), v@[0].yaml)),
        alias_rest(doc.spec_bytes(), 0) ==> (r matches Err(s) && exists|rest: Seq<char>| s@ == "invalid anchor"@ + rest),
        seq_first_doc(doc.spec_bytes(), 0) ==> (r matches Ok((v, _))
            ==> seq_yaml(doc.spec_bytes(), seq_root(doc.spec_bytes(), 0), v@[0].yaml)),
        seq_doc_unsplit(doc.spec_bytes(), 0) ==> (r matches Err(s) && exists|rest: Seq<char>| s@ == "invalid document splitter"@ + rest),
        kv_only_doc(doc.spec_bytes(), 0) ==> (r matches Ok((v, _)) && v@.len() == 1 && (v@[0].yaml matches Yaml::Mapping(m)
            && kv_map(doc.spec_bytes(), kv_of(kv_root(doc.spec_bytes(), body_start(doc.spec_bytes(), 0))), m@))),
        seq_only_doc(doc.spec_bytes(), 0) ==> (r matches Ok((v, _)) && v@.len() == 1
            && seq_yaml(doc.spec_bytes(), seq_root(doc.spec_bytes(), body_start(doc.spec_bytes(), 0)), v@[0].yaml)),
{
    let mut p = Parser::new(doc.as_bytes());
    proof {
        reveal_strlit("invalid ");
        reveal_strlit("anchor");
        reveal_strlit("invalid anchor");
        reveal_strlit("document splitter");
        reveal_strlit("invalid document splitter");
        assert(anchored(p.anchors, alias_name(p.doc@, 0)) is None);
    }
    match p.parse() {
        Ok(v) => Ok((v, p.anchors)),
        Err(e) => {
            let ghost e0 = e;
            let s = error_message(e);
            proof {
                if let PError::Terminate { name, msg } = e0 {
                    if name@ == "anchor"@ {
                        assert(s@ =~= "invalid anchor"@ + (": \n\n"@ + msg@));
                    }
                    if name@ == "document splitter"@ {
                        assert(s@ =~= "invalid document splitter"@ + (": \n\n"@ + msg@));
                    }
                }
            }
            Err(s)
        },
    }
}

/// Parses a YAML document into nodes, keeping the aliases (cyclic data can be read this
/// way); gives the nodes of the documents and the anchors, or the error message.
pub fn parse_cyclic(doc: &str) -> (r: Result<(Vec<Node>, crate::anchors::Anchors), String>)
    ensures
        r matches Ok((v, _)) ==> v@.len() >= 1,
        r matches Err(s) ==> s@.len() >= 8 && s@.subrange(0, 8) == seq!['i', 'n', 'v', 'a', 'l', 'i', 'd', ' '],
        doc.spec_bytes().len() == 0 ==> (r matches Ok((v, _)) && v@.len() == 1 && v@[0].yaml is Null),
        word_rest(doc.spec_bytes(), 0) ==> (r matches Ok((v, _)) && v@.len() == 1 && word_yaml(doc.spec_bytes(), 0, v@[0].yaml)),
        seq_doc(doc.spec_bytes(), 0) ==> (r matches Ok((v, _)) && v@.len() == 1
            && seq_yaml(doc.spec_bytes(), seq_root(doc.spec_bytes(), 0), v@[0].yaml)),
        alias_rest(doc.spec_bytes(), 0) ==> (r matches Ok((v, _)) && v@.len() == 1
            && (v@[0].yaml matches Yaml::Alias(a) && a@ == alias_name(doc.spec_bytes(), 0))),
        seq_first_doc(doc.spec_bytes(), 0) ==> (r matches Ok((v, _))
            ==> seq_yaml(doc.spec_bytes(), seq_root(doc.spec_bytes(), 0), v@[0].yaml)),
        seq_doc_unsplit(doc.spec_bytes(), 0) ==> (r matches Err(s) && exists|rest: Seq<char>| s@ == "invalid document splitter"@ + rest),
        kv_only_doc(doc.spec_bytes(), 0) ==> (r matches Ok((v, _)) && v@.len() == 1 && (v@[0].yaml matches Yaml::Mapping(m)
            && kv_map(doc.spec_bytes(), kv_of(kv_root(doc.spec_bytes(), body_start(doc.spec_bytes(), 0))), m@))),
        seq_only_doc(doc.spec_bytes(), 0) ==> (r matches Ok((v, _)) && v@.len() == 1
            && seq_yaml(doc.spec_bytes(), seq_root(doc.spec_bytes(), body_start(doc.spec_bytes(), 0)), v@[0].yaml)),
{
    let mut p = Parser::new(doc.as_bytes());
    p.keep_alias = true;
    proof {
        reveal_strlit("invalid ");
        reveal_strlit("document splitter");
        reveal_strlit("invalid document splitter");
    }
    match p.parse() {
        Ok(v) => Ok((v, p.anchors)),
        Err(e) => {
            let ghost e0 = e;
            let s = error_message(e);
            proof {
                if let PError::Terminate { name, msg } = e0 {
                    if name@ == "document splitter"@ {
                        assert(s@ =~= "invalid document splitter"@ + (": \n\n"@ + msg@));
                    }
                }
            }
            Err(s)
        },
    }
}

} // verus!
