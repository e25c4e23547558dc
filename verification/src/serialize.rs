//! Canonical serializer for the document tree model.
//!
//! Produces the indented `| `-prefixed line format used by the fixtures, so
//! that expected and actual trees can be compared byte for byte.  Attribute
//! order is deterministic: attributes are sorted by the UTF-16 code-unit
//! sequence of their displayed qualified name.

use vstd::prelude::*;

use crate::dom::{Attr, Doctype, Namespace, Node, NodeData, NodeId, QualName};
use crate::text::{
    chars_of, join_lines, lemma_join_lines_snoc, lines_view, push_chars, push_str_chars,
    split_lines, split_lines_exec, str_eq, string_from_chars, trim_chars, trim_end_chars,
    trim_end_ws, trim_start_ws,
};

verus! {

/// The literal prefix a namespace contributes to a displayed name.
pub open spec fn ns_prefix(ns: Namespace) -> Seq<char> {
    match ns {
        Namespace::Html => ""@,
        Namespace::Svg => "svg "@,
        Namespace::MathMl => "math "@,
        Namespace::Other(s) => if s@ == "xlink"@ {
            "xlink "@
        } else if s@ == "xml"@ {
            "xml "@
        } else if s@ == "xmlns"@ {
            "xmlns "@
        } else {
            ""@
        },
    }
}

/// The displayed qualified name: namespace prefix followed by local name.
pub open spec fn qualified(name: QualName) -> Seq<char> {
    ns_prefix(name.ns) + name.local@
}

fn namespace_prefix(ns: &Namespace) -> (r: &'static str)
    ensures
        r@ == ns_prefix(*ns),
{
    match ns {
        Namespace::Html => "",
        Namespace::Svg => "svg ",
        Namespace::MathMl => "math ",
        Namespace::Other(s) => {
            if str_eq(s.as_str(), "xlink") {
                "xlink "
            } else if str_eq(s.as_str(), "xml") {
                "xml "
            } else if str_eq(s.as_str(), "xmlns") {
                "xmlns "
            } else {
                ""
            }
        },
    }
}

fn qualified_name(name: &QualName) -> (r: Vec<char>)
    ensures
        r@ == qualified(*name),
{
    let mut out: Vec<char> = Vec::new();
    push_str_chars(&mut out, namespace_prefix(&name.ns));
    push_str_chars(&mut out, name.local.as_str());
    out
}

/// An element named `template` in the HTML namespace.
pub open spec fn is_template_name(name: QualName) -> bool {
    name.ns is Html && name.local@ == "template"@
}

fn is_template_html_name(name: &QualName) -> (r: bool)
    ensures
        r == is_template_name(*name),
{
    match &name.ns {
        Namespace::Html => str_eq(name.local.as_str(), "template"),
        _ => false,
    }
}

/// The UTF-16 code units of one character: the code point itself below
/// 0x10000, otherwise the surrogate pair.
pub open spec fn utf16_char(c: char) -> Seq<u16> {
    let u = c as u32;
    if u < 0x10000 {
        seq![u as u16]
    } else {
        let d = u as int - 0x10000;
        seq![(0xD800 + d / 0x400) as u16, (0xDC00 + d % 0x400) as u16]
    }
}

/// The UTF-16 code-unit sequence of a string.
pub open spec fn utf16_units(s: Seq<char>) -> Seq<u16>
    decreases s.len(),
{
    if s.len() == 0 {
        Seq::empty()
    } else {
        utf16_char(s[0]) + utf16_units(s.drop_first())
    }
}

pub proof fn lemma_utf16_units_append(a: Seq<char>, b: Seq<char>)
    ensures
        utf16_units(a + b) == utf16_units(a) + utf16_units(b),
    decreases a.len(),
{
    if a.len() == 0 {
        assert(a + b =~= b);
        assert(utf16_units(a) + utf16_units(b) =~= utf16_units(b));
    } else {
        assert((a + b).drop_first() =~= a.drop_first() + b);
        lemma_utf16_units_append(a.drop_first(), b);
        assert(utf16_units(a + b) =~= utf16_units(a) + utf16_units(b));
    }
}

pub proof fn lemma_utf16_units_singleton(c: char)
    ensures
        utf16_units(seq![c]) == utf16_char(c),
{
    assert(seq![c].len() == 1);
    assert(seq![c][0] == c);
    assert(seq![c].drop_first() =~= Seq::<char>::empty());
    assert(utf16_units(Seq::<char>::empty()) == Seq::<u16>::empty());
    assert(utf16_units(seq![c]) =~= utf16_char(c));
}

fn utf16_sort_key(s: &Vec<char>) -> (r: Vec<u16>)
    ensures
        r@ == utf16_units(s@),
{
    broadcast use vstd::utf8::char_is_scalar;

    let n = s.len();
    let mut out: Vec<u16> = Vec::new();
    let mut i: usize = 0;
    while i < n
        invariant
            n == s@.len(),
            i <= n,
            out@ == utf16_units(s@.take(i as int)),
        decreases n - i,
    {
        let c = s[i];
        let u = c as u32;
        if u < 0x10000 {
            out.push(u as u16);
        } else {
            let d = u - 0x10000;
            out.push((0xD800 + d / 0x400) as u16);
            out.push((0xDC00 + d % 0x400) as u16);
        }
        proof {
            assert(s@.take(i + 1) =~= s@.take(i as int) + seq![s@[i as int]]);
            lemma_utf16_units_append(s@.take(i as int), seq![s@[i as int]]);
            lemma_utf16_units_singleton(s@[i as int]);
            assert(out@ =~= utf16_units(s@.take(i + 1)));
        }
        i += 1;
    }
    proof {
        assert(s@.take(n as int) =~= s@);
    }
    out
}

/// Lexicographic order on UTF-16 code-unit sequences.
pub open spec fn u16_le(a: Seq<u16>, b: Seq<u16>) -> bool
    decreases a.len(),
{
    if a.len() == 0 {
        true
    } else if b.len() == 0 {
        false
    } else if a[0] < b[0] {
        true
    } else if a[0] > b[0] {
        false
    } else {
        u16_le(a.drop_first(), b.drop_first())
    }
}

pub proof fn lemma_u16_le_total(a: Seq<u16>, b: Seq<u16>)
    ensures
        u16_le(a, b) || u16_le(b, a),
    decreases a.len(),
{
    if a.len() > 0 && b.len() > 0 && a[0] == b[0] {
        lemma_u16_le_total(a.drop_first(), b.drop_first());
    }
}

pub proof fn lemma_u16_le_trans(a: Seq<u16>, b: Seq<u16>, c: Seq<u16>)
    requires
        u16_le(a, b),
        u16_le(b, c),
    ensures
        u16_le(a, c),
    decreases a.len(),
{
    if a.len() > 0 && b.len() > 0 && c.len() > 0 {
        if a[0] == b[0] && b[0] == c[0] {
            lemma_u16_le_trans(a.drop_first(), b.drop_first(), c.drop_first());
        }
    }
}

fn u16_le_from(a: &Vec<u16>, b: &Vec<u16>, i: usize) -> (r: bool)
    requires
        i <= a@.len(),
        i <= b@.len(),
    ensures
        r == u16_le(a@.skip(i as int), b@.skip(i as int)),
    decreases a@.len() - i,
{
    proof {
        if i < a@.len() {
            assert(a@.skip(i as int)[0] == a@[i as int]);
            assert(a@.skip(i as int).drop_first() =~= a@.skip(i + 1));
        }
        if i < b@.len() {
            assert(b@.skip(i as int)[0] == b@[i as int]);
            assert(b@.skip(i as int).drop_first() =~= b@.skip(i + 1));
        }
    }
    if i >= a.len() {
        true
    } else if i >= b.len() {
        false
    } else if a[i] < b[i] {
        true
    } else if a[i] > b[i] {
        false
    } else {
        u16_le_from(a, b, i + 1)
    }
}

fn u16_le_exec(a: &Vec<u16>, b: &Vec<u16>) -> (r: bool)
    ensures
        r == u16_le(a@, b@),
{
    proof {
        assert(a@.skip(0) =~= a@);
        assert(b@.skip(0) =~= b@);
    }
    u16_le_from(a, b, 0)
}

/// A sortable attribute entry: UTF-16 key, displayed name, value.
pub type AttrEntry = (Vec<u16>, Vec<char>, Vec<char>);

/// The ghost image of an [`AttrEntry`].
pub type EntryView = (Seq<u16>, Seq<char>, Seq<char>);

pub open spec fn entry_view(e: AttrEntry) -> EntryView {
    (e.0@, e.1@, e.2@)
}

pub open spec fn entries_view(v: Seq<AttrEntry>) -> Seq<EntryView> {
    Seq::new(v.len(), |i: int| entry_view(v[i]))
}

pub open spec fn attr_entry(a: Attr) -> EntryView {
    (utf16_units(qualified(a.name)), qualified(a.name), a.value@)
}

pub open spec fn attr_entries(attrs: Seq<Attr>) -> Seq<EntryView> {
    Seq::new(attrs.len(), |i: int| attr_entry(attrs[i]))
}

/// Stable insertion of `x` into `s`: `x` goes after every entry whose key
/// is less than or equal to its own.
pub open spec fn insert_sorted(s: Seq<EntryView>, x: EntryView) -> Seq<EntryView>
    decreases s.len(),
{
    if s.len() == 0 {
        seq![x]
    } else if u16_le(s.last().0, x.0) {
        s.push(x)
    } else {
        insert_sorted(s.drop_last(), x).push(s.last())
    }
}

/// Stable insertion sort by UTF-16 key.
pub open spec fn sort_entries(s: Seq<EntryView>) -> Seq<EntryView>
    decreases s.len(),
{
    if s.len() == 0 {
        Seq::empty()
    } else {
        insert_sorted(sort_entries(s.drop_last()), s.last())
    }
}

/// The attribute list of an element, as displayed entries in emission
/// order.
pub open spec fn sorted_attr_entries(attrs: Seq<Attr>) -> Seq<EntryView> {
    sort_entries(attr_entries(attrs))
}

/// Entries are in weakly increasing UTF-16 key order.
pub open spec fn entries_sorted(s: Seq<EntryView>) -> bool {
    forall|i: int, j: int| 0 <= i < j < s.len() ==> u16_le(#[trigger] s[i].0, #[trigger] s[j].0)
}

proof fn lemma_insert_sorted_len(s: Seq<EntryView>, x: EntryView)
    ensures
        insert_sorted(s, x).len() == s.len() + 1,
    decreases s.len(),
{
    if s.len() > 0 && !u16_le(s.last().0, x.0) {
        lemma_insert_sorted_len(s.drop_last(), x);
    }
}

proof fn lemma_insert_sorted_sorted(s: Seq<EntryView>, x: EntryView)
    requires
        entries_sorted(s),
    ensures
        entries_sorted(insert_sorted(s, x)),
    decreases s.len(),
{
    lemma_insert_sorted_len(s, x);
    if s.len() == 0 {
    } else if u16_le(s.last().0, x.0) {
        let r = s.push(x);
        assert forall|i: int, j: int| 0 <= i < j < r.len() implies u16_le(r[i].0, r[j].0) by {
            if j == r.len() - 1 {
                if i < s.len() - 1 {
                    lemma_u16_le_trans(s[i].0, s.last().0, x.0);
                }
            }
        }
    } else {
        let d = s.drop_last();
        assert(entries_sorted(d)) by {
            assert(forall|i: int, j: int| 0 <= i < j < d.len() ==> d[i] == s[i] && d[j] == s[j]);
        }
        lemma_insert_sorted_sorted(d, x);
        lemma_insert_sorted_len(d, x);
        let inner = insert_sorted(d, x);
        let r = inner.push(s.last());
        lemma_u16_le_total(s.last().0, x.0);
        // every entry of `inner` is either an old entry of `d` or `x`;
        // both are at most `s.last()` in key order
        lemma_insert_sorted_members(d, x);
        assert forall|i: int, j: int| 0 <= i < j < r.len() implies u16_le(r[i].0, r[j].0) by {
            if j == r.len() - 1 {
                assert(r[j] == s.last());
                assert(exists|m: int| 0 <= m < d.len() && inner[i] == d[m] || inner[i] == x);
                if inner[i] == x {
                    assert(u16_le(x.0, s.last().0));
                } else {
                    let m = choose|m: int| 0 <= m < d.len() && inner[i] == d[m];
                    assert(u16_le(s[m].0, s.last().0));
                }
            }
        }
    }
}

proof fn lemma_insert_sorted_members(s: Seq<EntryView>, x: EntryView)
    ensures
        forall|i: int| 0 <= i < insert_sorted(s, x).len()
            ==> (exists|m: int| 0 <= m < s.len() && #[trigger] insert_sorted(s, x)[i] == s[m])
                || insert_sorted(s, x)[i] == x,
    decreases s.len(),
{
    lemma_insert_sorted_len(s, x);
    if s.len() == 0 {
    } else if u16_le(s.last().0, x.0) {
        assert forall|i: int| 0 <= i < insert_sorted(s, x).len() implies (exists|m: int|
            0 <= m < s.len() && #[trigger] insert_sorted(s, x)[i] == s[m]) || insert_sorted(
            s,
            x,
        )[i] == x by {
            if i < s.len() {
                assert(insert_sorted(s, x)[i] == s[i]);
            }
        }
    } else {
        let d = s.drop_last();
        lemma_insert_sorted_members(d, x);
        lemma_insert_sorted_len(d, x);
        let inner = insert_sorted(d, x);
        assert forall|i: int| 0 <= i < insert_sorted(s, x).len() implies (exists|m: int|
            0 <= m < s.len() && #[trigger] insert_sorted(s, x)[i] == s[m]) || insert_sorted(
            s,
            x,
        )[i] == x by {
            if i < inner.len() {
                assert(insert_sorted(s, x)[i] == inner[i]);
                if inner[i] != x {
                    let m = choose|m: int| 0 <= m < d.len() && inner[i] == d[m];
                    assert(s[m] == d[m]);
                }
            } else {
                assert(insert_sorted(s, x)[i] == s.last());
                assert(s[s.len() - 1] == s.last());
            }
        }
    }
}

/// Attribute emission order follows the UTF-16 code-unit order of the
/// displayed qualified names: for any attribute list, the entries the
/// serializer emits are in weakly increasing key order.
pub proof fn lemma_sorted_attr_entries_sorted(attrs: Seq<Attr>)
    ensures
        entries_sorted(sorted_attr_entries(attrs)),
{
    lemma_sort_entries_sorted(attr_entries(attrs));
}

pub proof fn lemma_sort_entries_sorted(s: Seq<EntryView>)
    ensures
        entries_sorted(sort_entries(s)),
    decreases s.len(),
{
    if s.len() > 0 {
        lemma_sort_entries_sorted(s.drop_last());
        lemma_insert_sorted_sorted(sort_entries(s.drop_last()), s.last());
    }
}

/// `insert_sorted` splices `x` at the scan position found from the right:
/// the position with only not-less-or-equal keys after it.
proof fn lemma_insert_sorted_splice(s: Seq<EntryView>, x: EntryView, j: int)
    requires
        0 <= j <= s.len(),
        j > 0 ==> u16_le(s[j - 1].0, x.0),
        forall|k: int| j <= k < s.len() ==> !u16_le(#[trigger] s[k].0, x.0),
    ensures
        insert_sorted(s, x) == s.take(j) + seq![x] + s.skip(j),
    decreases s.len(),
{
    if j == s.len() {
        if s.len() == 0 {
            assert(insert_sorted(s, x) =~= s.take(j) + seq![x] + s.skip(j));
        } else {
            assert(u16_le(s.last().0, x.0));
            assert(insert_sorted(s, x) =~= s.take(j) + seq![x] + s.skip(j));
        }
    } else {
        assert(!u16_le(s[s.len() - 1].0, x.0));
        let d = s.drop_last();
        lemma_insert_sorted_splice(d, x, j);
        assert(d.take(j) =~= s.take(j));
        assert(d.skip(j) =~= s.skip(j).drop_last());
        assert(insert_sorted(s, x) == insert_sorted(d, x).push(s.last()));
        assert(insert_sorted(s, x) =~= s.take(j) + seq![x] + s.skip(j));
    }
}

/// Builds the displayed attribute entries in emission order: sorted by the
/// UTF-16 code-unit sequence of the displayed name, duplicates keeping
/// their original relative order.
fn sort_attrs_for_test_output(attrs: &Vec<Attr>) -> (r: Vec<AttrEntry>)
    ensures
        entries_view(r@) == sorted_attr_entries(attrs@),
{
    let n = attrs.len();
    let mut out: Vec<AttrEntry> = Vec::new();
    let mut i: usize = 0;
    while i < n
        invariant
            n == attrs@.len(),
            i <= n,
            entries_view(out@) == sort_entries(attr_entries(attrs@.take(i as int))),
        decreases n - i,
    {
        let display = qualified_name(&attrs[i].name);
        let key = utf16_sort_key(&display);
        let value = chars_of(attrs[i].value.as_str());
        let ghost prev = entries_view(out@);
        let ghost x = attr_entry(attrs@[i as int]);
        proof {
            assert(entry_view((key, display, value)) == x);
        }
        let mut j = out.len();
        while j > 0 && !u16_le_exec(&out[j - 1].0, &key)
            invariant
                j <= out.len(),
                entries_view(out@) == prev,
                forall|k: int| j <= k < out@.len()
                    ==> !u16_le(#[trigger] entries_view(out@)[k].0, key@),
            decreases j,
        {
            proof {
                assert(entries_view(out@)[j - 1].0 == out@[j - 1].0@);
            }
            j -= 1;
        }
        proof {
            if j > 0 {
                assert(entries_view(out@)[j - 1].0 == out@[j - 1].0@);
            }
        }
        out.insert(j, (key, display, value));
        proof {
            lemma_insert_sorted_splice(prev, x, j as int);
            assert(entries_view(out@) =~= prev.take(j as int) + seq![x] + prev.skip(j as int));
            assert(attr_entries(attrs@.take(i + 1)).drop_last()
                =~= attr_entries(attrs@.take(i as int)));
            assert(attr_entries(attrs@.take(i + 1)).last() == x);
            assert(entries_view(out@) == sort_entries(attr_entries(attrs@.take(i + 1))));
        }
        i += 1;
    }
    proof {
        assert(attrs@.take(n as int) =~= attrs@);
    }
    out
}

/// `n` space characters.
pub open spec fn spaces(n: nat) -> Seq<char> {
    Seq::new(n, |i: int| ' ')
}

/// One output line: the `| ` prefix, the indent, then the content.
pub open spec fn line_of(ind: nat, content: Seq<char>) -> Seq<char> {
    "| "@ + spaces(ind) + content
}

/// The doctype line content: identifiers are shown only when at least one
/// of them is non-empty.
pub open spec fn doctype_text(dt: Doctype) -> Seq<char> {
    if dt.public_id@.len() == 0 && dt.system_id@.len() == 0 {
        "<!DOCTYPE "@ + dt.name@ + ">"@
    } else {
        "<!DOCTYPE "@ + dt.name@ + " \""@ + dt.public_id@ + "\" \""@ + dt.system_id@ + "\">"@
    }
}

pub open spec fn elem_open(name: QualName) -> Seq<char> {
    "<"@ + qualified(name) + ">"@
}

pub open spec fn attr_line(e: EntryView) -> Seq<char> {
    e.1 + "=\""@ + e.2 + "\""@
}

pub open spec fn attr_lines(entries: Seq<EntryView>, ind: nat) -> Seq<Seq<char>> {
    Seq::new(entries.len(), |i: int| line_of(ind, attr_line(entries[i])))
}

/// The canonical lines of the node `id`, indented by `ind` columns.
/// `fuel` bounds the remaining descent depth; starting from the arena
/// length it never runs out on a well-formed tree, since a descent path
/// visits distinct nodes.
pub open spec fn render_node(arena: Seq<Node>, id: int, ind: nat, fuel: nat) -> Seq<Seq<char>>
    decreases fuel, 0int, 0int,
{
    if !(0 <= id < arena.len()) {
        Seq::empty()
    } else {
        let node = arena[id];
        match node.data {
            NodeData::Document => if fuel == 0 {
                Seq::empty()
            } else {
                render_list(arena, node.children@, ind, (fuel - 1) as nat)
            },
            NodeData::DocumentFragment => if fuel == 0 {
                Seq::empty()
            } else {
                render_list(arena, node.children@, ind, (fuel - 1) as nat)
            },
            NodeData::Doctype(dt) => seq![line_of(ind, doctype_text(dt))],
            NodeData::Comment(c) => seq![line_of(ind, "<!-- "@ + c@ + " -->"@)],
            NodeData::Text(t) => seq![line_of(ind, "\""@ + t@ + "\""@)],
            NodeData::Element { name, attrs, template_contents } => {
                let header = seq![line_of(ind, elem_open(name))]
                    + attr_lines(sorted_attr_entries(attrs@), ind + 2);
                if is_template_name(name) && template_contents is Some {
                    let cid = template_contents->Some_0 as int;
                    header + seq![line_of(ind + 2, "content"@)] + (if fuel == 0 {
                        Seq::empty()
                    } else if 0 <= cid < arena.len() {
                        render_list(arena, arena[cid].children@, ind + 4, (fuel - 1) as nat)
                    } else {
                        Seq::empty()
                    })
                } else {
                    header + (if fuel == 0 {
                        Seq::empty()
                    } else {
                        render_list(arena, node.children@, ind + 2, (fuel - 1) as nat)
                    })
                }
            },
        }
    }
}

/// The canonical lines of a list of sibling nodes.
pub open spec fn render_list(arena: Seq<Node>, ids: Seq<NodeId>, ind: nat, fuel: nat) -> Seq<
    Seq<char>,
>
    decreases fuel, 1int, ids.len(),
{
    if ids.len() == 0 {
        Seq::empty()
    } else {
        render_node(arena, ids[0] as int, ind, fuel) + render_list(
            arena,
            ids.drop_first(),
            ind,
            fuel,
        )
    }
}

pub proof fn lemma_render_list_append(arena: Seq<Node>, a: Seq<NodeId>, b: Seq<NodeId>, ind: nat, fuel: nat)
    ensures
        render_list(arena, a + b, ind, fuel) == render_list(arena, a, ind, fuel) + render_list(
            arena,
            b,
            ind,
            fuel,
        ),
    decreases a.len(),
{
    if a.len() == 0 {
        assert(a + b =~= b);
        assert(render_list(arena, a, ind, fuel) + render_list(arena, b, ind, fuel)
            =~= render_list(arena, b, ind, fuel));
    } else {
        assert((a + b).drop_first() =~= a.drop_first() + b);
        lemma_render_list_append(arena, a.drop_first(), b, ind, fuel);
        assert(render_list(arena, a + b, ind, fuel) =~= render_list(arena, a, ind, fuel)
            + render_list(arena, b, ind, fuel));
    }
}

/// The canonical serialization of the subtree rooted at `root`.
pub open spec fn test_format_spec(arena: Seq<Node>, root: int) -> Seq<char> {
    join_lines(render_node(arena, root, 0, arena.len() as nat))
}

/// A fresh line buffer holding the `| ` prefix and `indent` spaces.
fn start_line(indent: usize) -> (r: Vec<char>)
    ensures
        r@ == "| "@ + spaces(indent as nat),
{
    let mut out: Vec<char> = Vec::new();
    push_str_chars(&mut out, "| ");
    let mut k: usize = 0;
    while k < indent
        invariant
            k <= indent,
            out@ == "| "@ + spaces(k as nat),
        decreases indent - k,
    {
        out.push(' ');
        proof {
            assert(spaces((k + 1) as nat) =~= spaces(k as nat).push(' '));
        }
        k += 1;
    }
    out
}

fn doctype_to_test_format(doctype: &Doctype) -> (r: Vec<char>)
    ensures
        r@ == doctype_text(*doctype),
{
    let mut out: Vec<char> = Vec::new();
    push_str_chars(&mut out, "<!DOCTYPE ");
    push_str_chars(&mut out, doctype.name.as_str());
    if doctype.public_id.as_str().unicode_len() == 0 && doctype.system_id.as_str().unicode_len()
        == 0 {
        push_str_chars(&mut out, ">");
    } else {
        push_str_chars(&mut out, " \"");
        push_str_chars(&mut out, doctype.public_id.as_str());
        push_str_chars(&mut out, "\" \"");
        push_str_chars(&mut out, doctype.system_id.as_str());
        push_str_chars(&mut out, "\">");
    }
    out
}

fn node_to_test_lines(
    arena: &Vec<Node>,
    node_id: NodeId,
    indent: usize,
    fuel: usize,
    out: &mut Vec<Vec<char>>,
)
    requires
        crate::dom::wf_arena(arena@),
        node_id < arena@.len(),
        indent + 4 * fuel + 4 <= usize::MAX,
    ensures
        lines_view(final(out)@) == lines_view(old(out)@) + render_node(
            arena@,
            node_id as int,
            indent as nat,
            fuel as nat,
        ),
    decreases fuel, 0int,
{
    proof {
        assert(crate::dom::node_in_bounds(arena@[node_id as int], arena@.len() as int));
    }
    match &arena[node_id].data {
        NodeData::Document => {
            if fuel > 0 {
                emit_children(arena, &arena[node_id].children, indent, fuel - 1, out);
            } else {
                proof {
                    assert(lines_view(out@) =~~= lines_view(old(out)@) + render_node(
                        arena@,
                        node_id as int,
                        indent as nat,
                        fuel as nat,
                    ));
                }
            }
        },
        NodeData::DocumentFragment => {
            if fuel > 0 {
                emit_children(arena, &arena[node_id].children, indent, fuel - 1, out);
            } else {
                proof {
                    assert(lines_view(out@) =~~= lines_view(old(out)@) + render_node(
                        arena@,
                        node_id as int,
                        indent as nat,
                        fuel as nat,
                    ));
                }
            }
        },
        NodeData::Doctype(dt) => {
            let mut line = start_line(indent);
            push_chars(&mut line, &doctype_to_test_format(dt));
            out.push(line);
            proof {
                assert(lines_view(out@) =~~= lines_view(old(out)@) + render_node(
                    arena@,
                    node_id as int,
                    indent as nat,
                    fuel as nat,
                ));
            }
        },
        NodeData::Comment(data) => {
            let mut line = start_line(indent);
            push_str_chars(&mut line, "<!-- ");
            push_str_chars(&mut line, data.as_str());
            push_str_chars(&mut line, " -->");
            out.push(line);
            proof {
                assert(lines_view(out@) =~~= lines_view(old(out)@) + render_node(
                    arena@,
                    node_id as int,
                    indent as nat,
                    fuel as nat,
                ));
            }
        },
        NodeData::Text(data) => {
            let mut line = start_line(indent);
            push_str_chars(&mut line, "\"");
            push_str_chars(&mut line, data.as_str());
            push_str_chars(&mut line, "\"");
            out.push(line);
            proof {
                assert(lines_view(out@) =~~= lines_view(old(out)@) + render_node(
                    arena@,
                    node_id as int,
                    indent as nat,
                    fuel as nat,
                ));
            }
        },
        NodeData::Element { name, attrs, template_contents } => {
            let ghost base = lines_view(out@);
            let mut line = start_line(indent);
            push_str_chars(&mut line, "<");
            let q = qualified_name(name);
            push_chars(&mut line, &q);
            push_str_chars(&mut line, ">");
            out.push(line);
            proof {
                assert(lines_view(out@) =~~= base + seq![
                    line_of(indent as nat, elem_open(*name)),
                ]);
            }
            let sorted = sort_attrs_for_test_output(attrs);
            let ghost sv = sorted_attr_entries(attrs@);
            let m = sorted.len();
            let mut k: usize = 0;
            while k < m
                invariant
                    m == sv.len(),
                    entries_view(sorted@) == sv,
                    k <= m,
                    indent + 4 <= usize::MAX,
                    lines_view(out@) == base + seq![line_of(indent as nat, elem_open(*name))]
                        + attr_lines(sv, (indent + 2) as nat).take(k as int),
                decreases m - k,
            {
                let mut aline = start_line(indent + 2);
                push_chars(&mut aline, &sorted[k].1);
                push_str_chars(&mut aline, "=\"");
                push_chars(&mut aline, &sorted[k].2);
                push_str_chars(&mut aline, "\"");
                proof {
                    assert(entries_view(sorted@)[k as int] == entry_view(sorted@[k as int]));
                    assert(aline@ =~= line_of((indent + 2) as nat, attr_line(sv[k as int])));
                }
                let ghost prev_lines = lines_view(out@);
                out.push(aline);
                proof {
                    assert(lines_view(out@) =~~= prev_lines.push(aline@));
                    assert(attr_lines(sv, (indent + 2) as nat).take(k + 1) =~~= attr_lines(
                        sv,
                        (indent + 2) as nat,
                    ).take(k as int).push(line_of((indent + 2) as nat, attr_line(sv[k as int]))));
                    assert(prev_lines.push(aline@) =~~= base + seq![
                        line_of(indent as nat, elem_open(*name)),
                    ] + attr_lines(sv, (indent + 2) as nat).take(k + 1));
                }
                k += 1;
            }
            proof {
                assert(attr_lines(sv, (indent + 2) as nat).take(m as int) =~~= attr_lines(
                    sv,
                    (indent + 2) as nat,
                ));
            }
            let ghost with_attrs = base + seq![line_of(indent as nat, elem_open(*name))]
                + attr_lines(sv, (indent + 2) as nat);
            if is_template_html_name(name) && template_contents.is_some() {
                let cid = match template_contents {
                    Some(c) => *c,
                    None => 0,
                };
                let mut cline = start_line(indent + 2);
                push_str_chars(&mut cline, "content");
                out.push(cline);
                proof {
                    assert(lines_view(out@) =~~= with_attrs + seq![
                        line_of((indent + 2) as nat, "content"@),
                    ]);
                }
                if fuel > 0 {
                    emit_children(arena, &arena[cid].children, indent + 4, fuel - 1, out);
                }
                proof {
                    assert(lines_view(out@) =~~= lines_view(old(out)@) + render_node(
                        arena@,
                        node_id as int,
                        indent as nat,
                        fuel as nat,
                    ));
                }
            } else {
                if fuel > 0 {
                    emit_children(arena, &arena[node_id].children, indent + 2, fuel - 1, out);
                }
                proof {
                    assert(lines_view(out@) =~~= lines_view(old(out)@) + render_node(
                        arena@,
                        node_id as int,
                        indent as nat,
                        fuel as nat,
                    ));
                }
            }
        },
    }
}

fn emit_children(
    arena: &Vec<Node>,
    ids: &Vec<NodeId>,
    indent: usize,
    fuel: usize,
    out: &mut Vec<Vec<char>>,
)
    requires
        crate::dom::wf_arena(arena@),
        forall|k: int| 0 <= k < ids@.len() ==> (#[trigger] ids@[k]) < arena@.len(),
        indent + 4 * fuel + 4 <= usize::MAX,
    ensures
        lines_view(final(out)@) == lines_view(old(out)@) + render_list(
            arena@,
            ids@,
            indent as nat,
            fuel as nat,
        ),
    decreases fuel, 1int,
{
    let n = ids.len();
    let mut k: usize = 0;
    while k < n
        invariant
            crate::dom::wf_arena(arena@),
            forall|j: int| 0 <= j < ids@.len() ==> (#[trigger] ids@[j]) < arena@.len(),
            indent + 4 * fuel + 4 <= usize::MAX,
            n == ids@.len(),
            k <= n,
            lines_view(out@) == lines_view(old(out)@) + render_list(
                arena@,
                ids@.take(k as int),
                indent as nat,
                fuel as nat,
            ),
        decreases n - k,
    {
        node_to_test_lines(arena, ids[k], indent, fuel, out);
        proof {
            assert(ids@.take(k + 1) =~= ids@.take(k as int) + seq![ids@[k as int]]);
            lemma_render_list_append(
                arena@,
                ids@.take(k as int),
                seq![ids@[k as int]],
                indent as nat,
                fuel as nat,
            );
            assert(seq![ids@[k as int]].drop_first() =~= Seq::<NodeId>::empty());
            assert(render_list(arena@, Seq::<NodeId>::empty(), indent as nat, fuel as nat)
                =~~= Seq::<Seq<char>>::empty());
            assert(render_list(arena@, seq![ids@[k as int]], indent as nat, fuel as nat)
                =~~= render_node(arena@, ids@[k as int] as int, indent as nat, fuel as nat));
        }
        k += 1;
    }
    proof {
        assert(ids@.take(n as int) =~= ids@);
    }
}

/// Serializes the subtree rooted at `root` into the canonical test format.
pub fn to_test_format(arena: &Vec<Node>, root: NodeId) -> (r: String)
    requires
        crate::dom::wf_arena(arena@),
        root < arena@.len(),
        arena@.len() <= (usize::MAX - 4) / 4,
    ensures
        r@ == test_format_spec(arena@, root as int),
{
    let mut lines: Vec<Vec<char>> = Vec::new();
    node_to_test_lines(arena, root, 0, arena.len(), &mut lines);
    proof {
        assert(lines_view(lines@) =~~= render_node(arena@, root as int, 0, arena@.len() as nat));
    }
    let n = lines.len();
    let mut cs: Vec<char> = Vec::new();
    let mut i: usize = 0;
    while i < n
        invariant
            n == lines@.len(),
            i <= n,
            lines_view(lines@) == render_node(arena@, root as int, 0, arena@.len() as nat),
            cs@ == join_lines(lines_view(lines@).take(i as int)),
        decreases n - i,
    {
        if i > 0 {
            push_str_chars(&mut cs, "\n");
        }
        push_chars(&mut cs, &lines[i]);
        proof {
            assert(lines_view(lines@).take(i + 1) =~~= lines_view(lines@).take(i as int).push(
                lines_view(lines@)[i as int],
            ));
            lemma_join_lines_snoc(lines_view(lines@).take(i as int), lines_view(lines@)[i as int]);
        }
        i += 1;
    }
    proof {
        assert(lines_view(lines@).take(n as int) =~~= lines_view(lines@));
    }
    string_from_chars(&cs)
}

/// A text block normalized for comparison: whitespace trimmed from both
/// ends of the whole block, then trailing whitespace stripped from every
/// remaining line.
pub open spec fn normalize_spec(s: Seq<char>) -> Seq<char> {
    let t = trim_end_ws(trim_start_ws(s));
    let ls = split_lines(t);
    join_lines(Seq::new(ls.len(), |i: int| trim_end_ws(ls[i])))
}

/// Normalizes fixture-authored and freshly generated tree text so the two
/// compare equal regardless of incidental blank-line or trailing-space
/// differences.
pub fn normalize_tree_text(text: &str) -> (r: String)
    ensures
        r@ == normalize_spec(text@),
{
    let cs = chars_of(text);
    let t = trim_chars(&cs);
    let lines = split_lines_exec(&t);
    let ghost ls = split_lines(t@);
    let ghost trimmed = Seq::new(ls.len(), |i: int| trim_end_ws(ls[i]));
    let n = lines.len();
    let mut out: Vec<char> = Vec::new();
    let mut i: usize = 0;
    while i < n
        invariant
            n == lines@.len(),
            i <= n,
            lines_view(lines@) == ls,
            trimmed == Seq::new(ls.len(), |i: int| trim_end_ws(ls[i])),
            out@ == join_lines(trimmed.take(i as int)),
        decreases n - i,
    {
        if i > 0 {
            push_str_chars(&mut out, "\n");
        }
        let tl = trim_end_chars(&lines[i]);
        push_chars(&mut out, &tl);
        proof {
            assert(lines_view(lines@)[i as int] == lines@[i as int]@);
            assert(tl@ == trimmed[i as int]);
            assert(trimmed.take(i + 1) =~~= trimmed.take(i as int).push(trimmed[i as int]));
            lemma_join_lines_snoc(trimmed.take(i as int), trimmed[i as int]);
        }
        i += 1;
    }
    proof {
        assert(trimmed.take(n as int) =~~= trimmed);
    }
    string_from_chars(&out)
}

/// A `template` element in the HTML namespace with no materialized
/// contents serializes as its header and attribute lines followed by the
/// rendering of its direct children: no `content` marker line is emitted.
pub proof fn lemma_template_without_contents(
    arena: Seq<Node>,
    id: int,
    ind: nat,
    fuel: nat,
    name: QualName,
    attrs: Vec<Attr>,
    children: Vec<NodeId>,
)
    requires
        0 <= id < arena.len(),
        arena[id].data == (NodeData::Element { name, attrs, template_contents: None }),
        arena[id].children == children,
        is_template_name(name),
        fuel > 0,
    ensures
        render_node(arena, id, ind, fuel) == seq![line_of(ind, elem_open(name))] + attr_lines(
            sorted_attr_entries(attrs@),
            ind + 2,
        ) + render_list(arena, children@, ind + 2, (fuel - 1) as nat),
{
    assert(render_node(arena, id, ind, fuel) =~~= seq![line_of(ind, elem_open(name))]
        + attr_lines(sorted_attr_entries(attrs@), ind + 2) + render_list(
        arena,
        children@,
        ind + 2,
        (fuel - 1) as nat,
    ));
}

} // verus!
