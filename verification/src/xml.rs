//! The XML side: the element tree and its recursive-descent parser.

use vstd::prelude::*;
use crate::model::{NodeModel, all_ws, find_key};
use crate::chars::{
    char_at, is_ws, ws_end, name_end, text_end, aval_end, is_ws_char, is_name_char, push_char,
    lemma_text_end,
};
use crate::err::{expected_found, mismatched_tags, msg_expected_found, msg_mismatched_tags};
use vstd::string::{StringExecFns, StrSliceExecFns};

verus! {

broadcast use vstd::std_specs::vec::group_vec_axioms, vstd::seq::group_seq_axioms;

/// One parsed XML element.
#[derive(Debug, PartialEq, Eq)]
pub struct XmlNode {
    pub tag: String,
    pub attributes: Vec<(String, String)>,
    pub children: Vec<XmlNode>,
    pub text: Option<String>,
}

/// The abstract attribute list of the first `k` attribute pairs.
pub open spec fn attrs_model_upto(attrs: Vec<(String, String)>, k: int) -> Seq<
    (Seq<char>, Seq<char>),
>
    decreases attrs, 1int, k,
{
    if 0 < k <= attrs.len() {
        attrs_model_upto(attrs, k - 1).push((attrs[k - 1].0@, attrs[k - 1].1@))
    } else {
        Seq::empty()
    }
}

/// The abstract form of the first `k` children of an element.
pub open spec fn children_model_upto(cs: Vec<XmlNode>, k: int) -> Seq<NodeModel>
    decreases cs, 1int, k,
{
    if 0 < k <= cs.len() {
        children_model_upto(cs, k - 1).push(node_model(cs[k - 1]))
    } else {
        Seq::empty()
    }
}

/// The abstract form of one element.
pub open spec fn node_model(n: XmlNode) -> NodeModel
    decreases n, 2int, 0int,
{
    NodeModel {
        tag: n.tag@,
        attrs: attrs_model_upto(n.attributes, n.attributes.len() as int),
        children: children_model_upto(n.children, n.children.len() as int),
        text: match n.text {
            Option::Some(t) => Option::Some(t@),
            Option::None => Option::None,
        },
    }
}

impl View for XmlNode {
    type V = NodeModel;

    open spec fn view(&self) -> NodeModel {
        node_model(*self)
    }
}

impl XmlNode {
    /// A fresh element with the given tag and nothing else.
    pub fn new(tag: String) -> (n: XmlNode)
        ensures
            n@ == (NodeModel {
                tag: tag@,
                attrs: Seq::<(Seq<char>, Seq<char>)>::empty(),
                children: Seq::<NodeModel>::empty(),
                text: Option::None,
            }),
    {
        let n = XmlNode { tag, attributes: Vec::new(), children: Vec::new(), text: None };
        n
    }
}

/// The attribute models of the first `k` pairs are exactly the pairs' views.
pub proof fn lemma_attrs_model(attrs: Vec<(String, String)>, k: int)
    requires
        0 <= k <= attrs.len(),
    ensures
        attrs_model_upto(attrs, k).len() == k,
        forall|q: int|
            0 <= q < k ==> #[trigger] attrs_model_upto(attrs, k)[q] == (attrs[q].0@, attrs[q].1@),
    decreases k,
{
    if k > 0 {
        lemma_attrs_model(attrs, k - 1);
    }
}

/// The child models of the first `k` children are exactly the children's models.
pub proof fn lemma_children_model(cs: Vec<XmlNode>, k: int)
    requires
        0 <= k <= cs.len(),
    ensures
        children_model_upto(cs, k).len() == k,
        forall|q: int|
            0 <= q < k ==> #[trigger] children_model_upto(cs, k)[q] == node_model(cs[q]),
    decreases k,
{
    if k > 0 {
        lemma_children_model(cs, k - 1);
    }
}

/// `find_key` returns the first index bearing the key, or `-1`.
pub proof fn lemma_find_key<V>(gs: Seq<(Seq<char>, V)>, t: Seq<char>)
    ensures
        find_key(gs, t) == -1 || 0 <= find_key(gs, t) < gs.len(),
        find_key(gs, t) >= 0 ==> gs[find_key(gs, t)].0 == t,
        forall|q: int|
            0 <= q < gs.len() && gs[q].0 == t ==> 0 <= find_key(gs, t) <= q,
    decreases gs.len(),
{
    if gs.len() > 0 && gs[0].0 != t {
        let rest = gs.subrange(1, gs.len() as int);
        lemma_find_key(rest, t);
        assert forall|q: int| 0 <= q < gs.len() && gs[q].0 == t implies 0 <= find_key(gs, t)
            <= q by {
            assert(rest[q - 1] == gs[q]);
        }
    }
}

/// Storing one attribute: the value under an existing key is replaced, a
/// new key is appended.
pub open spec fn attr_insert(
    acc: Seq<(Seq<char>, Seq<char>)>,
    t: Seq<char>,
    v: Seq<char>,
) -> Seq<(Seq<char>, Seq<char>)> {
    let idx = find_key(acc, t);
    if idx < 0 {
        acc.push((t, v))
    } else {
        acc.update(idx, (acc[idx].0, v))
    }
}

/// Outcome of scanning a tag or attribute name at `i`: the name and the
/// position after it, or a diagnostic when no name character stands at `i`.
pub open spec fn sp_tag_name(s: Seq<char>, i: int) -> Result<(Seq<char>, int), Seq<char>> {
    let ne = name_end(s, i);
    if ne <= i {
        Err("Expected tag name"@)
    } else {
        Ok((s.subrange(i, ne), ne))
    }
}

/// Outcome of scanning an attribute value at `i` (just past the opening
/// quote): the raw value and the position after the closing quote.
pub open spec fn sp_attr_value(s: Seq<char>, i: int) -> Result<(Seq<char>, int), Seq<char>> {
    let e = aval_end(s, i);
    if e < s.len() {
        Ok((s.subrange(i, e), e + 1))
    } else {
        Err("Unterminated attribute value"@)
    }
}

/// Outcome of the attribute loop at `i` with the pairs read so far: the
/// full attribute list and the position of the `>` or `/` that ends it.
///
/// The position guards before the recursive call only bound the measure;
/// the scans cannot run backwards, so the `arbitrary()` branch is never
/// taken.
pub open spec fn sp_attrs(s: Seq<char>, i: int, acc: Seq<(Seq<char>, Seq<char>)>) -> Result<
    (Seq<(Seq<char>, Seq<char>)>, int),
    Seq<char>,
>
    decreases s.len() - i,
{
    let j = ws_end(s, i);
    if j >= s.len() {
        Err("Expected tag name"@)
    } else if s[j] == '>' || s[j] == '/' {
        Ok((acc, j))
    } else {
        match sp_tag_name(s, j) {
            Err(m) => Err(m),
            Ok((name, ne)) => {
                let j2 = ws_end(s, ne);
                if !(j2 < s.len() && s[j2] == '=') {
                    Err(expected_found('=', char_at(s, j2)))
                } else {
                    let j3 = ws_end(s, j2 + 1);
                    if !(j3 < s.len() && s[j3] == '"') {
                        Err(expected_found('"', char_at(s, j3)))
                    } else {
                        match sp_attr_value(s, j3 + 1) {
                            Err(m) => Err(m),
                            Ok((val, j4)) => if i < j4 && j4 <= s.len() {
                                sp_attrs(s, j4, attr_insert(acc, name, val))
                            } else {
                                arbitrary()
                            },
                        }
                    }
                }
            },
        }
    }
}

/// Outcome of parsing one element at `i`: the element and the position
/// after its closing (or self-closing) tag.
///
/// The position guards only bound the measure; see `sp_attrs`.
pub open spec fn sp_element(s: Seq<char>, i: int) -> Result<(NodeModel, int), Seq<char>>
    decreases s.len() - i, 0int,
{
    let j = ws_end(s, i);
    if !(j < s.len() && s[j] == '<') {
        Err(expected_found('<', char_at(s, j)))
    } else {
        match sp_tag_name(s, j + 1) {
            Err(m) => Err(m),
            Ok((tag, ne)) => match sp_attrs(s, ne, Seq::empty()) {
                Err(m) => Err(m),
                Ok((attrs, j2)) => {
                    let j3 = ws_end(s, j2);
                    let node = NodeModel {
                        tag,
                        attrs,
                        children: Seq::empty(),
                        text: Option::None,
                    };
                    if j3 < s.len() && s[j3] == '/' {
                        if char_at(s, j3 + 1) == Option::Some('>') {
                            Ok((node, j3 + 2))
                        } else {
                            Err(expected_found('>', char_at(s, j3 + 1)))
                        }
                    } else if j3 < s.len() && s[j3] == '>' {
                        if i <= j3 && j3 + 1 <= s.len() {
                            sp_content(s, j3 + 1, node)
                        } else {
                            arbitrary()
                        }
                    } else {
                        Err(expected_found('>', char_at(s, j3)))
                    }
                },
            },
        }
    }
}

/// Outcome of the content loop at `i` inside the open element `node`: the
/// finished element and the position after its closing tag.  Child
/// elements are appended in document order; a non-blank text run replaces
/// the element's text; input that ends before the closing tag is a
/// diagnostic (the loop never leaves the input).
///
/// The position guards only bound the measure; see `sp_attrs`.
pub open spec fn sp_content(s: Seq<char>, i: int, node: NodeModel) -> Result<
    (NodeModel, int),
    Seq<char>,
>
    decreases s.len() - i, 1int,
{
    let j = ws_end(s, i);
    if j >= s.len() {
        Err(expected_found('<', Option::None))
    } else if s[j] == '<' {
        if char_at(s, j + 1) == Option::Some('/') {
            match sp_tag_name(s, j + 2) {
                Err(m) => Err(m),
                Ok((close, ne)) => if close != node.tag {
                    Err(mismatched_tags(node.tag, close))
                } else if ne < s.len() && s[ne] == '>' {
                    Ok((node, ne + 1))
                } else {
                    Err(expected_found('>', char_at(s, ne)))
                },
            }
        } else if i <= j {
            match sp_element(s, j) {
                Err(m) => Err(m),
                Ok((child, j2)) => if j < j2 && j2 <= s.len() {
                    sp_content(
                        s,
                        j2,
                        NodeModel { children: node.children.push(child), ..node },
                    )
                } else {
                    arbitrary()
                },
            }
        } else {
            arbitrary()
        }
    } else {
        let te = text_end(s, j);
        let t = s.subrange(j, te);
        let node2 = if !all_ws(t) {
            NodeModel { text: Option::Some(t), ..node }
        } else {
            node
        };
        if i <= j && j < te && te <= s.len() {
            sp_content(s, te, node2)
        } else {
            arbitrary()
        }
    }
}

/// Whether a string trims to nothing.
#[verifier::loop_isolation(false)]
pub fn is_blank(s: &String) -> (r: bool)
    ensures
        r == all_ws(s@),
{
    let n = s.as_str().unicode_len();
    let mut i: usize = 0;
    while i < n
        invariant
            n == s@.len(),
            0 <= i <= n,
            forall|k: int| 0 <= k < i ==> is_ws(s@[k]),
        decreases n - i,
    {
        if !is_ws_char(s.as_str().get_char(i)) {
            return false;
        }
        i += 1;
    }
    true
}

/// The scanning state of the XML parser: the decoded input and the
/// current position in it.
pub struct XmlParser {
    pub input: Vec<char>,
    pub position: usize,
}

impl XmlParser {
    /// A parser positioned at the start of the given input.
    #[verifier::loop_isolation(false)]
    pub fn new(input: &str) -> (p: XmlParser)
        ensures
            p.input@ == input@,
            p.position == 0,
    {
        let n = input.unicode_len();
        let mut v: Vec<char> = Vec::new();
        let mut i: usize = 0;
        while i < n
            invariant
                n == input@.len(),
                0 <= i <= n,
                v@ =~= input@.subrange(0, i as int),
            decreases n - i,
        {
            v.push(input.get_char(i));
            i += 1;
        }
        proof {
            assert(v@ =~= input@);
        }
        XmlParser { input: v, position: 0 }
    }

    /// The current character, if any.
    fn peek_char(&self) -> (r: Option<char>)
        requires
            self.position <= self.input.len(),
        ensures
            r == char_at(self.input@, self.position as int),
    {
        if self.position < self.input.len() {
            Some(self.input[self.position])
        } else {
            None
        }
    }

    /// The character one past the current one, if any.
    fn peek_next_char(&self) -> (r: Option<char>)
        requires
            self.position <= self.input.len(),
        ensures
            r == char_at(self.input@, self.position + 1),
    {
        if self.input.len() - self.position >= 2 {
            Some(self.input[self.position + 1])
        } else {
            None
        }
    }

    /// Returns the current character and advances past it; at the end it
    /// returns `None` and stays.
    fn next_char(&mut self) -> (r: Option<char>)
        requires
            old(self).position <= old(self).input.len(),
        ensures
            final(self).input == old(self).input,
            r == char_at(old(self).input@, old(self).position as int),
            r is Some ==> final(self).position == old(self).position + 1,
            r is None ==> final(self).position == old(self).position,
            final(self).position <= final(self).input.len(),
    {
        if self.position < self.input.len() {
            let c = self.input[self.position];
            self.position = self.position + 1;
            Some(c)
        } else {
            None
        }
    }

    /// Consumes one character, which must equal `expected`.
    fn expect_char(&mut self, expected: char) -> (r: Result<(), String>)
        requires
            old(self).position <= old(self).input.len(),
        ensures
            final(self).input == old(self).input,
            final(self).position <= final(self).input.len(),
            old(self).position <= final(self).position,
            char_at(old(self).input@, old(self).position as int) == Option::Some(expected) ==> r
                is Ok && final(self).position == old(self).position + 1,
            char_at(old(self).input@, old(self).position as int) != Option::Some(expected) ==> r
                is Err && r->Err_0@ == expected_found(
                expected,
                char_at(old(self).input@, old(self).position as int),
            ),
    {
        match self.next_char() {
            Some(c) => if c == expected {
                Ok(())
            } else {
                Err(msg_expected_found(expected, Some(c)))
            },
            None => Err(msg_expected_found(expected, None)),
        }
    }

    /// Advances past the maximal run of whitespace.
    #[verifier::loop_isolation(false)]
    fn skip_whitespace(&mut self)
        requires
            old(self).position <= old(self).input.len(),
        ensures
            final(self).input == old(self).input,
            final(self).position == ws_end(old(self).input@, old(self).position as int),
            old(self).position <= final(self).position <= final(self).input.len(),
    {
        while self.position < self.input.len() && is_ws_char(self.input[self.position])
            invariant
                self.input == old(self).input,
                old(self).position <= self.position <= self.input.len(),
                ws_end(self.input@, old(self).position as int) == ws_end(
                    self.input@,
                    self.position as int,
                ),
            decreases self.input.len() - self.position,
        {
            self.position = self.position + 1;
        }
    }

    /// Scans a tag or attribute name; empty names are a diagnostic.
    #[verifier::loop_isolation(false)]
    fn parse_tag_name(&mut self) -> (r: Result<String, String>)
        requires
            old(self).position <= old(self).input.len(),
        ensures
            final(self).input == old(self).input,
            final(self).position <= final(self).input.len(),
            old(self).position <= final(self).position,
            match sp_tag_name(old(self).input@, old(self).position as int) {
                Ok(p) => r is Ok && r->Ok_0@ == p.0 && final(self).position as int == p.1,
                Err(m) => r is Err && r->Err_0@ == m && final(self).position == old(
                    self,
                ).position,
            },
    {
        let ghost s = self.input@;
        let ghost i0 = self.position as int;
        let mut name = String::new();
        while self.position < self.input.len() && is_name_char(self.input[self.position])
            invariant
                self.input == old(self).input,
                self.input@ == s,
                i0 <= self.position <= self.input.len(),
                name@ == s.subrange(i0, self.position as int),
                name_end(s, i0) == name_end(s, self.position as int),
            decreases self.input.len() - self.position,
        {
            let c = self.input[self.position];
            self.position = self.position + 1;
            push_char(&mut name, c);
            proof {
                assert(name@ =~= s.subrange(i0, self.position as int));
            }
        }
        if name.as_str().unicode_len() == 0 {
            proof {
                assert(self.position as int == i0);
            }
            return Err(String::from_str("Expected tag name"));
        }
        Ok(name)
    }

    /// Scans an attribute value up to the closing quote.
    #[verifier::loop_isolation(false)]
    fn parse_attribute_value(&mut self) -> (r: Result<String, String>)
        requires
            old(self).position <= old(self).input.len(),
        ensures
            final(self).input == old(self).input,
            final(self).position <= final(self).input.len(),
            old(self).position <= final(self).position,
            match sp_attr_value(old(self).input@, old(self).position as int) {
                Ok(p) => r is Ok && r->Ok_0@ == p.0 && final(self).position as int == p.1,
                Err(m) => r is Err && r->Err_0@ == m,
            },
    {
        let ghost s = self.input@;
        let ghost i0 = self.position as int;
        let mut value = String::new();
        while self.position < self.input.len() && self.input[self.position] != '"'
            invariant
                self.input == old(self).input,
                self.input@ == s,
                i0 <= self.position <= self.input.len(),
                value@ == s.subrange(i0, self.position as int),
                aval_end(s, i0) == aval_end(s, self.position as int),
            decreases self.input.len() - self.position,
        {
            let c = self.input[self.position];
            self.position = self.position + 1;
            push_char(&mut value, c);
            proof {
                assert(value@ =~= s.subrange(i0, self.position as int));
            }
        }
        if self.position < self.input.len() {
            self.position = self.position + 1;
            Ok(value)
        } else {
            Err(String::from_str("Unterminated attribute value"))
        }
    }

    /// Scans a text run up to the next `<` or the end of the input.
    #[verifier::loop_isolation(false)]
    fn parse_text(&mut self) -> (r: Result<String, String>)
        requires
            old(self).position <= old(self).input.len(),
        ensures
            final(self).input == old(self).input,
            final(self).position <= final(self).input.len(),
            old(self).position <= final(self).position,
            r is Ok,
            r->Ok_0@ == old(self).input@.subrange(
                old(self).position as int,
                text_end(old(self).input@, old(self).position as int),
            ),
            final(self).position as int == text_end(old(self).input@, old(self).position as int),
    {
        let ghost s = self.input@;
        let ghost i0 = self.position as int;
        let mut text = String::new();
        while self.position < self.input.len() && self.input[self.position] != '<'
            invariant
                self.input == old(self).input,
                self.input@ == s,
                i0 <= self.position <= self.input.len(),
                text@ == s.subrange(i0, self.position as int),
                text_end(s, i0) == text_end(s, self.position as int),
            decreases self.input.len() - self.position,
        {
            let c = self.input[self.position];
            self.position = self.position + 1;
            push_char(&mut text, c);
            proof {
                assert(text@ =~= s.subrange(i0, self.position as int));
            }
        }
        Ok(text)
    }

    /// Reads the attribute list of an open tag, up to the `>` or `/` that
    /// ends it.  A repeated attribute name keeps the last value.
    #[verifier::loop_isolation(false)]
    fn parse_attributes(&mut self) -> (r: Result<Vec<(String, String)>, String>)
        requires
            old(self).position <= old(self).input.len(),
        ensures
            final(self).input == old(self).input,
            final(self).position <= final(self).input.len(),
            old(self).position <= final(self).position,
            match sp_attrs(old(self).input@, old(self).position as int, Seq::empty()) {
                Ok(p) => r is Ok && attrs_model_upto(r->Ok_0, r->Ok_0.len() as int) == p.0
                    && final(self).position as int == p.1,
                Err(m) => r is Err && r->Err_0@ == m,
            },
    {
        let ghost s = self.input@;
        let mut attrs: Vec<(String, String)> = Vec::new();
        loop
            invariant
                self.input == old(self).input,
                old(self).position <= self.position <= self.input.len(),
                sp_attrs(s, old(self).position as int, Seq::empty()) == sp_attrs(
                    s,
                    self.position as int,
                    attrs_model_upto(attrs, attrs.len() as int),
                ),
            decreases self.input.len() - self.position,
        {
            let ghost p0 = self.position as int;
            let ghost acc0 = attrs_model_upto(attrs, attrs.len() as int);
            self.skip_whitespace();
            let ghost j = self.position as int;
            match self.peek_char() {
                Some(c) => {
                    if c == '>' || c == '/' {
                        return Ok(attrs);
                    }
                },
                None => {},
            }
            let name = match self.parse_tag_name() {
                Ok(n) => n,
                Err(e) => {
                    return Err(e);
                },
            };
            self.skip_whitespace();
            match self.expect_char('=') {
                Ok(u) => u,
                Err(e) => {
                    return Err(e);
                },
            };
            self.skip_whitespace();
            match self.expect_char('"') {
                Ok(u) => u,
                Err(e) => {
                    return Err(e);
                },
            };
            let value = match self.parse_attribute_value() {
                Ok(v) => v,
                Err(e) => {
                    return Err(e);
                },
            };
            let ghost acc1 = attr_insert(acc0, name@, value@);
            proof {
                lemma_find_key(acc0, name@);
                lemma_attrs_model(attrs, attrs.len() as int);
            }
            let n_attrs = attrs.len();
            let mut fi: usize = 0;
            while fi < n_attrs && !(attrs[fi].0 == name)
                invariant
                    n_attrs == attrs.len(),
                    0 <= fi <= n_attrs,
                    forall|q: int| 0 <= q < fi ==> acc0[q].0 != name@,
                decreases n_attrs - fi,
            {
                proof {
                    assert(acc0[fi as int] == (attrs[fi as int].0@, attrs[fi as int].1@));
                }
                fi += 1;
            }
            if fi < n_attrs {
                proof {
                    assert(acc0[fi as int] == (attrs[fi as int].0@, attrs[fi as int].1@));
                    assert(find_key(acc0, name@) == fi as int);
                }
                let stored = attrs[fi].0.clone();
                attrs[fi] = (stored, value);
                proof {
                    lemma_attrs_model(attrs, attrs.len() as int);
                    assert(attrs_model_upto(attrs, attrs.len() as int) =~= acc1);
                }
            } else {
                proof {
                    assert(find_key(acc0, name@) == -1) by {
                        if find_key(acc0, name@) >= 0 {
                            assert(acc0[find_key(acc0, name@)].0 == name@);
                        }
                    }
                }
                attrs.push((name, value));
                proof {
                    lemma_attrs_model(attrs, attrs.len() as int);
                    assert(attrs_model_upto(attrs, attrs.len() as int) =~= acc1);
                }
            }
        }
    }

    /// Parses one element: `<` name attributes, then either `/>` or `>`
    /// content `</` name `>`, where the closing name must match.
    #[verifier::loop_isolation(false)]
    pub fn parse(&mut self) -> (r: Result<XmlNode, String>)
        requires
            old(self).position <= old(self).input.len(),
        ensures
            final(self).input == old(self).input,
            final(self).position <= final(self).input.len(),
            match sp_element(old(self).input@, old(self).position as int) {
                Ok(p) => r is Ok && r->Ok_0@ == p.0 && final(self).position as int == p.1
                    && old(self).position < final(self).position,
                Err(m) => r is Err && r->Err_0@ == m,
            },
        decreases self.input.len() - self.position,
    {
        let ghost s = self.input@;
        let ghost i0 = self.position as int;
        self.skip_whitespace();
        match self.expect_char('<') {
            Ok(u) => u,
            Err(e) => {
                return Err(e);
            },
        };
        let tag = match self.parse_tag_name() {
            Ok(t) => t,
            Err(e) => {
                return Err(e);
            },
        };
        let mut node = XmlNode::new(tag);
        match self.parse_attributes() {
            Ok(a) => {
                node.attributes = a;
            },
            Err(e) => {
                return Err(e);
            },
        }
        let ghost nm = NodeModel {
            tag: node.tag@,
            attrs: attrs_model_upto(node.attributes, node.attributes.len() as int),
            children: Seq::empty(),
            text: Option::None,
        };
        proof {
            assert(node@ =~= nm);
        }
        self.skip_whitespace();
        let ghost j3 = self.position as int;
        let self_closing = match self.peek_char() {
            Some(c) => c == '/',
            None => false,
        };
        if self_closing {
            self.next_char();
            match self.expect_char('>') {
                Ok(u) => u,
                Err(e) => {
                    return Err(e);
                },
            };
            return Ok(node);
        }
        match self.expect_char('>') {
            Ok(u) => u,
            Err(e) => {
                return Err(e);
            },
        };
        loop
            invariant
                self.input == old(self).input,
                i0 < self.position <= self.input.len(),
                sp_element(s, i0) == sp_content(s, self.position as int, node@),
            decreases self.input.len() - self.position,
        {
            let ghost p0 = self.position as int;
            let ghost nm0 = node@;
            self.skip_whitespace();
            let ghost j = self.position as int;
            let pk = self.peek_char();
            match pk {
                None => {
                    return Err(msg_expected_found('<', None));
                },
                Some(c) => {
                    if c == '<' {
                        let closing = match self.peek_next_char() {
                            Some(c2) => c2 == '/',
                            None => false,
                        };
                        if closing {
                            self.next_char();
                            self.next_char();
                            let close = match self.parse_tag_name() {
                                Ok(t) => t,
                                Err(e) => {
                                    return Err(e);
                                },
                            };
                            if close != node.tag {
                                return Err(msg_mismatched_tags(&node.tag, &close));
                            }
                            match self.expect_char('>') {
                                Ok(u) => u,
                                Err(e) => {
                                    return Err(e);
                                },
                            };
                            return Ok(node);
                        } else {
                            let child = match self.parse() {
                                Ok(ch) => ch,
                                Err(e) => {
                                    return Err(e);
                                },
                            };
                            let ghost cm = child@;
                            let ghost cs0 = node.children;
                            node.children.push(child);
                            proof {
                                lemma_children_model(node.children, node.children.len() as int);
                                lemma_children_model(cs0, cs0.len() as int);
                                assert(node@.children =~= nm0.children.push(cm));
                                assert(node@ =~= (NodeModel {
                                    children: nm0.children.push(cm),
                                    ..nm0
                                }));
                            }
                        }
                    } else {
                        let text = match self.parse_text() {
                            Ok(t) => t,
                            Err(e) => {
                                return Err(e);
                            },
                        };
                        proof {
                            lemma_text_end(s, j + 1);
                        }
                        if !is_blank(&text) {
                            let ghost t = text@;
                            node.text = Some(text);
                            proof {
                                assert(node@ =~= (NodeModel { text: Option::Some(t), ..nm0 }));
                            }
                        }
                    }
                },
            }
        }
    }
}

/// Parses a complete XML element from the start of `input`; text after the
/// root element's closing tag is ignored, as the scan stops there.
pub fn parse_xml(input: &str) -> (r: Result<XmlNode, String>)
    ensures
        match sp_element(input@, 0) {
            Ok(p) => r is Ok && r->Ok_0@ == p.0,
            Err(m) => r is Err && r->Err_0@ == m,
        },
{
    let mut p = XmlParser::new(input);
    p.parse()
}

} // verus!
