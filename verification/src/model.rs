//! The mathematical model of the two data shapes.
//!
//! `NodeModel` abstracts a parsed XML element, `JsonModel` a JSON value
//! (with the number kept as its literal text).  The conversion functions of
//! the library are specified against these models.

use vstd::prelude::*;
use crate::chars::is_ws;

verus! {

broadcast use vstd::seq::group_seq_axioms;

/// Abstract form of one XML element.
#[verifier::ext_equal]
pub struct NodeModel {
    pub tag: Seq<char>,
    pub attrs: Seq<(Seq<char>, Seq<char>)>,
    pub children: Seq<NodeModel>,
    pub text: Option<Seq<char>>,
}

/// Abstract form of one JSON value.  `Num` carries the number literal
/// exactly as it stood in the source text.
#[verifier::ext_equal]
pub enum JsonModel {
    Null,
    Bool(bool),
    Num(Seq<char>),
    Str(Seq<char>),
    Arr(Seq<JsonModel>),
    Obj(Seq<(Seq<char>, JsonModel)>),
}

/// How one character of text is escaped in XML output.
pub open spec fn esc_char(c: char) -> Seq<char> {
    if c == '&' {
        "&amp;"@
    } else if c == '<' {
        "&lt;"@
    } else if c == '>' {
        "&gt;"@
    } else if c == '"' {
        "&quot;"@
    } else if c == '\'' {
        "&apos;"@
    } else {
        seq![c]
    }
}

/// XML escaping of the first `k` characters of a text.
pub open spec fn escape_xml_upto(s: Seq<char>, k: int) -> Seq<char>
    decreases k,
{
    if 0 < k <= s.len() {
        escape_xml_upto(s, k - 1) + esc_char(s[k - 1])
    } else {
        Seq::empty()
    }
}

/// XML escaping of a whole text: each character independently.
pub open spec fn escape_xml(s: Seq<char>) -> Seq<char> {
    escape_xml_upto(s, s.len() as int)
}

/// `<tag>`
pub open spec fn open_tag(tag: Seq<char>) -> Seq<char> {
    "<"@ + tag + ">"@
}

/// `</tag>`
pub open spec fn close_tag(tag: Seq<char>) -> Seq<char> {
    "</"@ + tag + ">"@
}

/// The XML rendering of a JSON value under a given tag: `Null` is a bare
/// opening tag, leaves render their text between matched tags, arrays
/// render each element under `item`, objects each member under its key,
/// each piece preceded by two spaces.
pub open spec fn xml_of(v: JsonModel, tag: Seq<char>) -> Seq<char>
    decreases v, 0int, 0int,
{
    match v {
        JsonModel::Null => open_tag(tag),
        JsonModel::Bool(b) => open_tag(tag) + (if b {
            "true"@
        } else {
            "false"@
        }) + close_tag(tag),
        JsonModel::Num(t) => open_tag(tag) + t + close_tag(tag),
        JsonModel::Str(s) => open_tag(tag) + escape_xml(s) + close_tag(tag),
        JsonModel::Arr(items) => open_tag(tag) + xml_items_upto(items, items.len() as int)
            + close_tag(tag),
        JsonModel::Obj(members) => open_tag(tag) + xml_members_upto(
            members,
            members.len() as int,
        ) + close_tag(tag),
    }
}

/// The renderings of the first `k` array elements, each under `item` and
/// preceded by two spaces.
pub open spec fn xml_items_upto(items: Seq<JsonModel>, k: int) -> Seq<char>
    decreases items, 1int, k,
{
    if 0 < k <= items.len() {
        xml_items_upto(items, k - 1) + "  "@ + xml_of(items[k - 1], "item"@)
    } else {
        Seq::empty()
    }
}

/// The rendering of one object member, under its key as tag.
pub open spec fn xml_member(m: (Seq<char>, JsonModel)) -> Seq<char>
    decreases m, 0int, 0int,
{
    xml_of(m.1, m.0)
}

/// The renderings of the first `k` object members, each preceded by two
/// spaces.
pub open spec fn xml_members_upto(members: Seq<(Seq<char>, JsonModel)>, k: int) -> Seq<char>
    decreases members, 1int, k,
{
    if 0 < k <= members.len() {
        xml_members_upto(members, k - 1) + "  "@ + xml_member(members[k - 1])
    } else {
        Seq::empty()
    }
}

/// First index of `t` among the keys of `gs`, or `-1` when absent.
pub open spec fn find_key<V>(gs: Seq<(Seq<char>, V)>, t: Seq<char>) -> int
    decreases gs.len(),
{
    if gs.len() == 0 {
        -1
    } else if gs[0].0 == t {
        0
    } else {
        let r = find_key(gs.subrange(1, gs.len() as int), t);
        if r < 0 {
            -1
        } else {
            1 + r
        }
    }
}

/// Adds one `(key, value)` pair to a sequence of groups: appended to the
/// group with that key if one exists, else opening a new group at the end.
pub open spec fn add_to_group(
    gs: Seq<(Seq<char>, Seq<JsonModel>)>,
    t: Seq<char>,
    v: JsonModel,
) -> Seq<(Seq<char>, Seq<JsonModel>)> {
    let idx = find_key(gs, t);
    if idx < 0 {
        gs.push((t, seq![v]))
    } else {
        gs.update(idx, (gs[idx].0, gs[idx].1.push(v)))
    }
}

/// Groups the first `k` projected children by tag, keeping the
/// first-encounter order of tags and the document order inside each group.
pub open spec fn group_upto(ps: Seq<(Seq<char>, JsonModel)>, k: int) -> Seq<
    (Seq<char>, Seq<JsonModel>),
>
    decreases k,
{
    if 0 < k <= ps.len() {
        add_to_group(group_upto(ps, k - 1), ps[k - 1].0, ps[k - 1].1)
    } else {
        Seq::empty()
    }
}

/// A group of one child maps to that child's projection; a larger group to
/// an array of the projections.
pub open spec fn group_value(vs: Seq<JsonModel>) -> JsonModel {
    if vs.len() == 1 {
        vs[0]
    } else {
        JsonModel::Arr(vs)
    }
}

/// The object members standing for the first `k` groups.
pub open spec fn group_members_upto(gs: Seq<(Seq<char>, Seq<JsonModel>)>, k: int) -> Seq<
    (Seq<char>, JsonModel),
>
    decreases k,
{
    if 0 < k <= gs.len() {
        group_members_upto(gs, k - 1).push((gs[k - 1].0, group_value(gs[k - 1].1)))
    } else {
        Seq::empty()
    }
}

/// Storing one object member: the value under an existing key is
/// replaced in place, a new key is appended.
pub open spec fn obj_insert(
    acc: Seq<(Seq<char>, JsonModel)>,
    t: Seq<char>,
    v: JsonModel,
) -> Seq<(Seq<char>, JsonModel)> {
    let idx = find_key(acc, t);
    if idx < 0 {
        acc.push((t, v))
    } else {
        acc.update(idx, (acc[idx].0, v))
    }
}

/// Stores the first `k` of the pairs `ms` into `acc` in turn, the last
/// value under a repeated key winning.
pub open spec fn obj_extend(
    acc: Seq<(Seq<char>, JsonModel)>,
    ms: Seq<(Seq<char>, JsonModel)>,
    k: int,
) -> Seq<(Seq<char>, JsonModel)>
    decreases k,
{
    if 0 < k <= ms.len() {
        obj_insert(obj_extend(acc, ms, k - 1), ms[k - 1].0, ms[k - 1].1)
    } else {
        acc
    }
}

/// Whether a text run is blank, that is, trims to the empty string.
pub open spec fn all_ws(t: Seq<char>) -> bool {
    forall|k: int| 0 <= k < t.len() ==> is_ws(t[k])
}

/// The attribute pairs of a node as JSON string members.
pub open spec fn attr_entries_upto(attrs: Seq<(Seq<char>, Seq<char>)>, k: int) -> Seq<
    (Seq<char>, JsonModel),
>
    decreases k,
{
    if 0 < k <= attrs.len() {
        attr_entries_upto(attrs, k - 1).push((attrs[k - 1].0, JsonModel::Str(attrs[k - 1].1)))
    } else {
        Seq::empty()
    }
}

/// The object members contributed by a node's attributes: one `@attributes`
/// entry when there are any.
pub open spec fn attr_members(n: NodeModel) -> Seq<(Seq<char>, JsonModel)> {
    if n.attrs.len() > 0 {
        seq![("@attributes"@, JsonModel::Obj(attr_entries_upto(n.attrs, n.attrs.len() as int)))]
    } else {
        Seq::empty()
    }
}

/// The object member contributed by a node's text when it sits beside
/// attributes or children: one `#text` entry.
pub open spec fn text_members(n: NodeModel) -> Seq<(Seq<char>, JsonModel)> {
    match n.text {
        Option::Some(t) => seq![("#text"@, JsonModel::Str(t))],
        Option::None => Seq::empty(),
    }
}

/// The tag-and-projection pairs of the first `k` children of a node.
pub open spec fn child_projs_upto(cs: Seq<NodeModel>, k: int) -> Seq<(Seq<char>, JsonModel)>
    decreases cs, 1int, k,
{
    if 0 < k <= cs.len() {
        child_projs_upto(cs, k - 1).push((cs[k - 1].tag, json_of_node(cs[k - 1])))
    } else {
        Seq::empty()
    }
}

/// The JSON projection of an XML element: text-only elements become the
/// text string, empty elements become `Null`, and anything else becomes an
/// object of `@attributes`, `#text` and the grouped children.
pub open spec fn json_of_node(n: NodeModel) -> JsonModel
    decreases n, 2int, 0int,
{
    if n.text is Some && n.children.len() == 0 && n.attrs.len() == 0 {
        JsonModel::Str(n.text->Some_0)
    } else {
        let projs = child_projs_upto(n.children, n.children.len() as int);
        let groups = group_upto(projs, projs.len() as int);
        let raw = attr_members(n) + text_members(n) + group_members_upto(
            groups,
            groups.len() as int,
        );
        let members = obj_extend(Seq::empty(), raw, raw.len() as int);
        if members.len() == 0 {
            JsonModel::Null
        } else {
            JsonModel::Obj(members)
        }
    }
}

/// How one character is escaped when a string is written as JSON text:
/// only the quote and the backslash need a backslash, everything else
/// stands for itself (the parser reads other characters verbatim).
pub open spec fn jesc_char(c: char) -> Seq<char> {
    if c == '"' {
        "\\\""@
    } else if c == '\\' {
        "\\\\"@
    } else {
        seq![c]
    }
}

/// JSON escaping of the first `k` characters of a text.
pub open spec fn jesc_upto(s: Seq<char>, k: int) -> Seq<char>
    decreases k,
{
    if 0 < k <= s.len() {
        jesc_upto(s, k - 1) + jesc_char(s[k - 1])
    } else {
        Seq::empty()
    }
}

/// A string as JSON text: quoted and escaped.
pub open spec fn jquote(s: Seq<char>) -> Seq<char> {
    "\""@ + jesc_upto(s, s.len() as int) + "\""@
}

/// The JSON text of a value: the straightforward compact rendering, with
/// no added whitespace.
pub open spec fn jtext_of(v: JsonModel) -> Seq<char>
    decreases v, 0int, 0int,
{
    match v {
        JsonModel::Null => "null"@,
        JsonModel::Bool(b) => if b {
            "true"@
        } else {
            "false"@
        },
        JsonModel::Num(t) => t,
        JsonModel::Str(s) => jquote(s),
        JsonModel::Arr(items) => "["@ + jtext_items_upto(items, items.len() as int) + "]"@,
        JsonModel::Obj(members) => "{"@ + jtext_members_upto(members, members.len() as int)
            + "}"@,
    }
}

/// The JSON texts of the first `k` array elements, comma-separated.
pub open spec fn jtext_items_upto(items: Seq<JsonModel>, k: int) -> Seq<char>
    decreases items, 1int, k,
{
    if 0 < k <= items.len() {
        jtext_items_upto(items, k - 1) + (if k > 1 {
            ","@
        } else {
            Seq::empty()
        }) + jtext_of(items[k - 1])
    } else {
        Seq::empty()
    }
}

/// The JSON text of one object member: quoted key, colon, value.
pub open spec fn jtext_member(m: (Seq<char>, JsonModel)) -> Seq<char>
    decreases m, 0int, 0int,
{
    jquote(m.0) + ":"@ + jtext_of(m.1)
}

/// The JSON texts of the first `k` object members, comma-separated.
pub open spec fn jtext_members_upto(members: Seq<(Seq<char>, JsonModel)>, k: int) -> Seq<char>
    decreases members, 1int, k,
{
    if 0 < k <= members.len() {
        jtext_members_upto(members, k - 1) + (if k > 1 {
            ","@
        } else {
            Seq::empty()
        }) + jtext_member(members[k - 1])
    } else {
        Seq::empty()
    }
}

} // verus!
