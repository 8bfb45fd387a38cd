//! The two conversions: XML element to JSON value, and JSON value to XML
//! text, together with the plain JSON writer.

use vstd::prelude::*;
use crate::model::{
    JsonModel, NodeModel, escape_xml, escape_xml_upto, open_tag, xml_of, xml_member,
    xml_items_upto, xml_members_upto, jesc_upto, jquote, jtext_of, jtext_member, jtext_items_upto,
    jtext_members_upto, json_of_node, attr_members, text_members, attr_entries_upto,
    child_projs_upto, group_upto, group_value, group_members_upto, add_to_group, obj_insert,
    obj_extend, find_key,
};
use crate::chars::push_char;
use crate::json::{
    JsonValue, value_model, items_model_upto, members_model_upto, lemma_items_model,
    lemma_members_model,
};
use crate::xml::{XmlNode, node_model, lemma_attrs_model, lemma_children_model, lemma_find_key};
use vstd::string::{StringExecFns, StrSliceExecFns};

verus! {

broadcast use vstd::std_specs::vec::group_vec_axioms, vstd::seq::group_seq_axioms;

/// Replaces `&`, `<`, `>`, `"` and `'` by their XML character entities.
#[verifier::loop_isolation(false)]
pub fn escape_xml_text(text: &str) -> (r: String)
    ensures
        r@ == escape_xml(text@),
{
    let ghost s = text@;
    let n = text.unicode_len();
    let mut out = String::new();
    let mut i: usize = 0;
    while i < n
        invariant
            n == s.len(),
            0 <= i <= n,
            out@ == escape_xml_upto(s, i as int),
        decreases n - i,
    {
        let c = text.get_char(i);
        if c == '&' {
            out.append("&amp;");
        } else if c == '<' {
            out.append("&lt;");
        } else if c == '>' {
            out.append("&gt;");
        } else if c == '"' {
            out.append("&quot;");
        } else if c == '\'' {
            out.append("&apos;");
        } else {
            push_char(&mut out, c);
        }
        i += 1;
        proof {
            assert(out@ =~= escape_xml_upto(s, i as int));
        }
    }
    out
}

impl JsonValue {
    /// The XML rendering of this value under the tag `root`.
    pub fn to_xml(&self) -> (r: String)
        ensures
            r@ == xml_of(self@, "root"@),
    {
        self.to_xml_with_tag("root")
    }

    /// The XML rendering of this value under the given tag.
    #[verifier::loop_isolation(false)]
    pub fn to_xml_with_tag(&self, tag: &str) -> (r: String)
        ensures
            r@ == xml_of(self@, tag@),
        decreases self,
    {
        match self {
            JsonValue::Null => {
                let mut out = String::from_str("<");
                out.append(tag);
                out.append(">");
                proof {
                    assert(out@ =~= xml_of(self@, tag@));
                }
                out
            },
            JsonValue::Boolean(b) => {
                let mut out = String::from_str("<");
                out.append(tag);
                out.append(">");
                if *b {
                    out.append("true");
                } else {
                    out.append("false");
                }
                out.append("</");
                out.append(tag);
                out.append(">");
                proof {
                    assert(out@ =~= xml_of(self@, tag@));
                }
                out
            },
            JsonValue::Number(t) => {
                let mut out = String::from_str("<");
                out.append(tag);
                out.append(">");
                out.append(t.as_str());
                out.append("</");
                out.append(tag);
                out.append(">");
                proof {
                    assert(out@ =~= xml_of(self@, tag@));
                }
                out
            },
            JsonValue::String(sv) => {
                let mut out = String::from_str("<");
                out.append(tag);
                out.append(">");
                let esc = escape_xml_text(sv.as_str());
                out.append(esc.as_str());
                out.append("</");
                out.append(tag);
                out.append(">");
                proof {
                    assert(out@ =~= xml_of(self@, tag@));
                }
                out
            },
            JsonValue::Array(items) => {
                let mut out = String::from_str("<");
                out.append(tag);
                out.append(">");
                let ghost im = items_model_upto(*items, items.len() as int);
                proof {
                    lemma_items_model(*items, items.len() as int);
                }
                let mut i: usize = 0;
                while i < items.len()
                    invariant
                        0 <= i <= items.len(),
                        out@ == open_tag(tag@) + xml_items_upto(im, i as int),
                    decreases items.len() - i,
                {
                    out.append("  ");
                    let piece = items[i].to_xml_with_tag("item");
                    out.append(piece.as_str());
                    i += 1;
                    proof {
                        assert(out@ =~= open_tag(tag@) + xml_items_upto(im, i as int));
                    }
                }
                out.append("</");
                out.append(tag);
                out.append(">");
                proof {
                    assert(out@ =~= xml_of(self@, tag@));
                }
                out
            },
            JsonValue::Object(members) => {
                let mut out = String::from_str("<");
                out.append(tag);
                out.append(">");
                let ghost mm = members_model_upto(*members, members.len() as int);
                proof {
                    lemma_members_model(*members, members.len() as int);
                }
                let mut i: usize = 0;
                while i < members.len()
                    invariant
                        0 <= i <= members.len(),
                        out@ == open_tag(tag@) + xml_members_upto(mm, i as int),
                    decreases members.len() - i,
                {
                    out.append("  ");
                    let piece = members[i].1.to_xml_with_tag(members[i].0.as_str());
                    out.append(piece.as_str());
                    i += 1;
                    proof {
                        assert(mm[i - 1] == (members[i - 1].0@, value_model(members[i - 1].1)));
                        assert(xml_member(mm[i - 1]) == xml_of(mm[i - 1].1, mm[i - 1].0));
                        assert(out@ =~= open_tag(tag@) + xml_members_upto(mm, i as int));
                    }
                }
                out.append("</");
                out.append(tag);
                out.append(">");
                proof {
                    assert(out@ =~= xml_of(self@, tag@));
                }
                out
            },
        }
    }
}

/// A string as compact JSON text: quoted, with quotes and backslashes
/// escaped.
#[verifier::loop_isolation(false)]
fn write_jstring(s: &str) -> (r: String)
    ensures
        r@ == jquote(s@),
{
    let ghost sv = s@;
    let n = s.unicode_len();
    let mut out = String::from_str("\"");
    let mut i: usize = 0;
    while i < n
        invariant
            n == sv.len(),
            0 <= i <= n,
            out@ == "\""@ + jesc_upto(sv, i as int),
        decreases n - i,
    {
        let c = s.get_char(i);
        if c == '"' {
            out.append("\\\"");
        } else if c == '\\' {
            out.append("\\\\");
        } else {
            push_char(&mut out, c);
        }
        i += 1;
        proof {
            assert(out@ =~= "\""@ + jesc_upto(sv, i as int));
        }
    }
    out.append("\"");
    proof {
        assert(out@ =~= jquote(sv));
    }
    out
}

/// The compact JSON text of a value: no added whitespace, object members
/// in the value's own order.
#[verifier::loop_isolation(false)]
pub fn write_json(v: &JsonValue) -> (r: String)
    ensures
        r@ == jtext_of(v@),
    decreases v,
{
    match v {
        JsonValue::Null => String::from_str("null"),
        JsonValue::Boolean(b) => if *b {
            String::from_str("true")
        } else {
            String::from_str("false")
        },
        JsonValue::Number(t) => {
            let mut out = String::new();
            out.append(t.as_str());
            proof {
                assert(out@ =~= jtext_of(v@));
            }
            out
        },
        JsonValue::String(sv) => write_jstring(sv.as_str()),
        JsonValue::Array(items) => {
            let mut out = String::from_str("[");
            let ghost im = items_model_upto(*items, items.len() as int);
            proof {
                lemma_items_model(*items, items.len() as int);
            }
            let mut i: usize = 0;
            while i < items.len()
                invariant
                    0 <= i <= items.len(),
                    out@ == "["@ + jtext_items_upto(im, i as int),
                decreases items.len() - i,
            {
                if i > 0 {
                    out.append(",");
                }
                let piece = write_json(&items[i]);
                out.append(piece.as_str());
                i += 1;
                proof {
                    assert(out@ =~= "["@ + jtext_items_upto(im, i as int));
                }
            }
            out.append("]");
            proof {
                assert(out@ =~= jtext_of(v@));
            }
            out
        },
        JsonValue::Object(members) => {
            let mut out = String::from_str("{");
            let ghost mm = members_model_upto(*members, members.len() as int);
            proof {
                lemma_members_model(*members, members.len() as int);
            }
            let mut i: usize = 0;
            while i < members.len()
                invariant
                    0 <= i <= members.len(),
                    out@ == "{"@ + jtext_members_upto(mm, i as int),
                decreases members.len() - i,
            {
                if i > 0 {
                    out.append(",");
                }
                let keytext = write_jstring(members[i].0.as_str());
                out.append(keytext.as_str());
                out.append(":");
                let piece = write_json(&members[i].1);
                out.append(piece.as_str());
                i += 1;
                proof {
                    assert(mm[i - 1] == (members[i - 1].0@, value_model(members[i - 1].1)));
                    assert(jtext_member(mm[i - 1]) == jquote(mm[i - 1].0) + ":"@ + jtext_of(
                        mm[i - 1].1,
                    ));
                    assert(out@ =~= "{"@ + jtext_members_upto(mm, i as int));
                }
            }
            out.append("}");
            proof {
                assert(out@ =~= jtext_of(v@));
            }
            out
        },
    }
}

/// The tag groups collected while projecting an element's children.
pub open spec fn groups_model_upto(gs: Vec<(String, Vec<JsonValue>)>, k: int) -> Seq<
    (Seq<char>, Seq<JsonModel>),
>
    decreases gs, 1int, k,
{
    if 0 < k <= gs.len() {
        groups_model_upto(gs, k - 1).push(
            (gs[k - 1].0@, items_model_upto(gs[k - 1].1, gs[k - 1].1.len() as int)),
        )
    } else {
        Seq::empty()
    }
}

/// The group models of the first `k` groups are exactly the groups' views.
pub proof fn lemma_groups_model(gs: Vec<(String, Vec<JsonValue>)>, k: int)
    requires
        0 <= k <= gs.len(),
    ensures
        groups_model_upto(gs, k).len() == k,
        forall|q: int|
            0 <= q < k ==> #[trigger] groups_model_upto(gs, k)[q] == (
                gs[q].0@,
                items_model_upto(gs[q].1, gs[q].1.len() as int),
            ),
    decreases k,
{
    if k > 0 {
        lemma_groups_model(gs, k - 1);
    }
}

/// The child projections are pointwise the children's tags and values.
pub proof fn lemma_child_projs(cs: Seq<NodeModel>, k: int)
    requires
        0 <= k <= cs.len(),
    ensures
        child_projs_upto(cs, k).len() == k,
        forall|q: int|
            0 <= q < k ==> #[trigger] child_projs_upto(cs, k)[q] == (
                cs[q].tag,
                json_of_node(cs[q]),
            ),
    decreases k,
{
    if k > 0 {
        lemma_child_projs(cs, k - 1);
    }
}

/// The group members are pointwise the groups' tags and folded values.
pub proof fn lemma_group_members(gs: Seq<(Seq<char>, Seq<JsonModel>)>, k: int)
    requires
        0 <= k <= gs.len(),
    ensures
        group_members_upto(gs, k).len() == k,
        forall|q: int|
            0 <= q < k ==> #[trigger] group_members_upto(gs, k)[q] == (
                gs[q].0,
                group_value(gs[q].1),
            ),
    decreases k,
{
    if k > 0 {
        lemma_group_members(gs, k - 1);
    }
}

/// Stores one member into the object being built: the value under an
/// existing key is replaced in place, a new key is appended.
#[verifier::loop_isolation(false)]
fn insert_member(members: &mut Vec<(String, JsonValue)>, key: String, value: JsonValue)
    ensures
        members_model_upto(*final(members), final(members).len() as int) == obj_insert(
            members_model_upto(*old(members), old(members).len() as int),
            key@,
            value@,
        ),
{
    let ghost acc0 = members_model_upto(*members, members.len() as int);
    proof {
        lemma_find_key(acc0, key@);
        lemma_members_model(*members, members.len() as int);
    }
    let n_members = members.len();
    let mut fi: usize = 0;
    while fi < n_members && !(members[fi].0 == key)
        invariant
            n_members == members.len(),
            0 <= fi <= n_members,
            forall|q: int| 0 <= q < fi ==> acc0[q].0 != key@,
        decreases n_members - fi,
    {
        proof {
            assert(acc0[fi as int] == (members[fi as int].0@, value_model(members[fi as int].1)));
        }
        fi += 1;
    }
    if fi < n_members {
        proof {
            assert(acc0[fi as int] == (members[fi as int].0@, value_model(members[fi as int].1)));
            assert(find_key(acc0, key@) == fi as int);
        }
        let stored = members[fi].0.clone();
        members[fi] = (stored, value);
        proof {
            lemma_members_model(*members, members.len() as int);
            assert(members_model_upto(*members, members.len() as int) =~= obj_insert(
                acc0,
                key@,
                value@,
            ));
        }
    } else {
        proof {
            assert(find_key(acc0, key@) == -1) by {
                if find_key(acc0, key@) >= 0 {
                    assert(acc0[find_key(acc0, key@)].0 == key@);
                }
            }
        }
        members.push((key, value));
        proof {
            lemma_members_model(*members, members.len() as int);
            assert(members_model_upto(*members, members.len() as int) =~= obj_insert(
                acc0,
                key@,
                value@,
            ));
        }
    }
}

impl XmlNode {
    /// The JSON projection of this element: a text-only element becomes
    /// its text string, an empty element becomes `Null`, anything else an
    /// object of `@attributes`, `#text` and the children grouped by tag,
    /// a group of one standing alone and a larger group as an array.
    #[verifier::loop_isolation(false)]
    #[verifier::rlimit(100)]
    pub fn to_json(&self) -> (r: JsonValue)
        ensures
            r@ == json_of_node(self@),
        decreases self,
    {
        let ghost nm = self@;
        if self.children.len() == 0 && self.attributes.len() == 0 {
            match &self.text {
                Some(t) => {
                    return JsonValue::String(String::from_str(t.as_str()));
                },
                None => {},
            }
        }
        proof {
            lemma_children_model(self.children, self.children.len() as int);
            lemma_attrs_model(self.attributes, self.attributes.len() as int);
            lemma_child_projs(nm.children, nm.children.len() as int);
        }
        let ghost projs = child_projs_upto(nm.children, nm.children.len() as int);
        let mut groups: Vec<(String, Vec<JsonValue>)> = Vec::new();
        let mut ci: usize = 0;
        while ci < self.children.len()
            invariant
                0 <= ci <= self.children.len(),
                groups_model_upto(groups, groups.len() as int) == group_upto(projs, ci as int),
            decreases self.children.len() - ci,
        {
            let cj = self.children[ci].to_json();
            let tag_s = String::from_str(self.children[ci].tag.as_str());
            let ghost gm0 = groups_model_upto(groups, groups.len() as int);
            proof {
                lemma_groups_model(groups, groups.len() as int);
                lemma_find_key(gm0, tag_s@);
            }
            let n_g = groups.len();
            let mut fi: usize = 0;
            while fi < n_g && !(groups[fi].0 == tag_s)
                invariant
                    n_g == groups.len(),
                    0 <= fi <= n_g,
                    forall|q: int| 0 <= q < fi ==> gm0[q].0 != tag_s@,
                decreases n_g - fi,
            {
                proof {
                    assert(gm0[fi as int] == (groups[fi as int].0@, items_model_upto(
                        groups[fi as int].1,
                        groups[fi as int].1.len() as int,
                    )));
                }
                fi += 1;
            }
            if fi < n_g {
                proof {
                    assert(gm0[fi as int] == (groups[fi as int].0@, items_model_upto(
                        groups[fi as int].1,
                        groups[fi as int].1.len() as int,
                    )));
                    assert(find_key(gm0, tag_s@) == fi as int);
                }
                let ghost inner0 = items_model_upto(groups[fi as int].1, groups[fi as int].1.len() as int);
                let ghost groups0 = groups;
                let entry = groups.remove(fi);
                let gt = entry.0;
                let mut gvs = entry.1;
                let ghost gvs0 = gvs;
                gvs.push(cj);
                proof {
                    lemma_items_model(gvs, gvs.len() as int);
                    lemma_items_model(gvs0, gvs0.len() as int);
                    assert(items_model_upto(gvs, gvs.len() as int) =~= inner0.push(cj@));
                }
                let ghost newpair = (gt, gvs);
                groups.insert(fi, (gt, gvs));
                proof {
                    assert(groups@ =~= groups0@.update(fi as int, newpair));
                    lemma_groups_model(groups, groups.len() as int);
                    let lhs = groups_model_upto(groups, groups.len() as int);
                    let rhs = add_to_group(gm0, tag_s@, cj@);
                    assert(rhs == gm0.update(
                        fi as int,
                        (gm0[fi as int].0, gm0[fi as int].1.push(cj@)),
                    ));
                    assert(lhs.len() == rhs.len());
                    assert forall|q: int| 0 <= q < lhs.len() implies lhs[q] == rhs[q] by {
                        assert(lhs[q] == (groups[q].0@, items_model_upto(
                            groups[q].1,
                            groups[q].1.len() as int,
                        )));
                        if q == fi as int {
                            assert(groups@[q] == newpair);
                            assert(gm0[q].0 == gt@);
                            assert(gm0[q].1 == inner0);
                        } else {
                            assert(groups@[q] == groups0@[q]);
                            assert(rhs[q] == gm0[q]);
                            assert(gm0[q] == (groups0[q].0@, items_model_upto(
                                groups0[q].1,
                                groups0[q].1.len() as int,
                            )));
                        }
                    }
                    assert(lhs =~= rhs);
                }
            } else {
                proof {
                    assert(find_key(gm0, tag_s@) == -1) by {
                        if find_key(gm0, tag_s@) >= 0 {
                            assert(gm0[find_key(gm0, tag_s@)].0 == tag_s@);
                        }
                    }
                }
                let mut gvs: Vec<JsonValue> = Vec::new();
                gvs.push(cj);
                let ghost newpair = (tag_s, gvs);
                groups.push((tag_s, gvs));
                proof {
                    assert(items_model_upto(newpair.1, 0) == Seq::<JsonModel>::empty());
                    assert(items_model_upto(newpair.1, 1) =~= seq![cj@]);
                    lemma_groups_model(groups, groups.len() as int);
                    let lhs = groups_model_upto(groups, groups.len() as int);
                    let rhs = add_to_group(gm0, tag_s@, cj@);
                    assert(rhs == gm0.push((tag_s@, seq![cj@])));
                    assert(lhs.len() == rhs.len());
                    assert forall|q: int| 0 <= q < lhs.len() implies lhs[q] == rhs[q] by {
                        assert(lhs[q] == (groups[q].0@, items_model_upto(
                            groups[q].1,
                            groups[q].1.len() as int,
                        )));
                        if q < gm0.len() {
                            assert(rhs[q] == gm0[q]);
                        } else {
                            assert(groups@[q] == newpair);
                        }
                    }
                    assert(lhs =~= rhs);
                }
            }
            ci += 1;
        }
        let ghost gm = groups_model_upto(groups, groups.len() as int);
        let ghost raw = attr_members(nm) + text_members(nm) + group_members_upto(
            gm,
            gm.len() as int,
        );
        let ghost base: int = (if nm.attrs.len() > 0 {
            1int
        } else {
            0int
        }) + (if nm.text is Some {
            1int
        } else {
            0int
        });
        proof {
            lemma_groups_model(groups, groups.len() as int);
            lemma_group_members(gm, gm.len() as int);
        }
        let mut members: Vec<(String, JsonValue)> = Vec::new();
        if self.attributes.len() > 0 {
            let mut entries: Vec<(String, JsonValue)> = Vec::new();
            let mut ai: usize = 0;
            while ai < self.attributes.len()
                invariant
                    0 <= ai <= self.attributes.len(),
                    members_model_upto(entries, entries.len() as int) == attr_entries_upto(
                        nm.attrs,
                        ai as int,
                    ),
                decreases self.attributes.len() - ai,
            {
                let ghost e0 = entries;
                let k = String::from_str(self.attributes[ai].0.as_str());
                let v = String::from_str(self.attributes[ai].1.as_str());
                entries.push((k, JsonValue::String(v)));
                ai += 1;
                proof {
                    lemma_members_model(entries, entries.len() as int);
                    lemma_members_model(e0, e0.len() as int);
                    assert(members_model_upto(entries, entries.len() as int) =~= attr_entries_upto(
                        nm.attrs,
                        ai as int,
                    ));
                }
            }
            insert_member(
                &mut members,
                String::from_str("@attributes"),
                JsonValue::Object(entries),
            );
            proof {
                assert(raw[0] == ("@attributes"@, JsonModel::Obj(
                    attr_entries_upto(nm.attrs, nm.attrs.len() as int),
                )));
                assert(obj_extend(Seq::empty(), raw, 0) == Seq::<(Seq<char>, JsonModel)>::empty());
                assert(members_model_upto(members, members.len() as int) =~= obj_extend(
                    Seq::empty(),
                    raw,
                    1,
                ));
            }
        }
        proof {
            assert(obj_extend(Seq::empty(), raw, 0) == Seq::<(Seq<char>, JsonModel)>::empty());
            assert(members_model_upto(members, members.len() as int) == obj_extend(
                Seq::empty(),
                raw,
                if nm.attrs.len() > 0 {
                    1int
                } else {
                    0int
                },
            ));
        }
        match &self.text {
            Some(t) => {
                insert_member(
                    &mut members,
                    String::from_str("#text"),
                    JsonValue::String(String::from_str(t.as_str())),
                );
                proof {
                    assert(raw[base - 1] == ("#text"@, JsonModel::Str(nm.text->Some_0)));
                    assert(members_model_upto(members, members.len() as int) =~= obj_extend(
                        Seq::empty(),
                        raw,
                        base,
                    ));
                }
            },
            None => {},
        }
        proof {
            assert(members_model_upto(members, members.len() as int) == obj_extend(
                Seq::empty(),
                raw,
                base,
            ));
        }
        let ghost gcount = gm.len();
        let mut gi: usize = 0;
        while groups.len() > 0
            invariant
                0 <= gi,
                gi + groups.len() == gcount,
                groups_model_upto(groups, groups.len() as int) == gm.subrange(
                    gi as int,
                    gcount as int,
                ),
                members_model_upto(members, members.len() as int) == obj_extend(
                    Seq::empty(),
                    raw,
                    base + gi,
                ),
            decreases groups.len(),
        {
            let ghost gsub0 = groups_model_upto(groups, groups.len() as int);
            let ghost groupsb = groups;
            proof {
                lemma_groups_model(groups, groups.len() as int);
            }
            let entry = groups.remove(0);
            proof {
                assert(groups@ =~= groupsb@.subrange(1, groupsb@.len() as int));
            }
            let gt = entry.0;
            let mut gvs = entry.1;
            proof {
                lemma_items_model(gvs, gvs.len() as int);
                assert(gsub0[0] == (gt@, items_model_upto(gvs, gvs.len() as int)));
                assert(gsub0[0] == gm[gi as int]);
            }
            let ghost inner = items_model_upto(gvs, gvs.len() as int);
            let val = if gvs.len() == 1 {
                match gvs.pop() {
                    Some(x) => x,
                    None => JsonValue::Null,
                }
            } else {
                JsonValue::Array(gvs)
            };
            proof {
                assert(val@ == group_value(inner));
            }
            insert_member(&mut members, gt, val);
            gi += 1;
            proof {
                assert(raw[base + gi - 1] == group_members_upto(gm, gcount as int)[gi - 1]);
                assert(members_model_upto(members, members.len() as int) =~= obj_extend(
                    Seq::empty(),
                    raw,
                    base + gi,
                ));
                lemma_groups_model(groups, groups.len() as int);
                let lhs = groups_model_upto(groups, groups.len() as int);
                let rhs = gm.subrange(gi as int, gcount as int);
                assert(lhs.len() == rhs.len());
                assert forall|q: int| 0 <= q < lhs.len() implies lhs[q] == rhs[q] by {
                    assert(lhs[q] == (groups[q].0@, items_model_upto(
                        groups[q].1,
                        groups[q].1.len() as int,
                    )));
                    assert(groups@[q] == groupsb@[q + 1]);
                    assert(gsub0[q + 1] == (groupsb[q + 1].0@, items_model_upto(
                        groupsb[q + 1].1,
                        groupsb[q + 1].1.len() as int,
                    )));
                    assert(gsub0[q + 1] == gm[gi - 1 + q + 1]);
                    assert(rhs[q] == gm[gi + q]);
                }
                assert(lhs =~= rhs);
            }
        }
        proof {
            assert(base + gcount == raw.len());
            lemma_members_model(members, members.len() as int);
        }
        if members.len() == 0 {
            proof {
                assert(json_of_node(nm) == JsonModel::Null);
            }
            JsonValue::Null
        } else {
            let r = JsonValue::Object(members);
            proof {
                assert(r@ == json_of_node(nm));
            }
            r
        }
    }
}

} // verus!
