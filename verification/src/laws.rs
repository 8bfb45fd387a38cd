//! Properties that relate several operations of the library: reading back
//! what the JSON writer produced, and the parsers' indifference to leading
//! whitespace.

use vstd::prelude::*;
use crate::model::{
    JsonModel, jesc_char, jesc_upto, jquote, jtext_of, jtext_member, jtext_items_upto,
    jtext_members_upto, obj_insert,
};
use crate::chars::{
    is_ws, is_digit, char_at, ws_end, digits_end, name_end, aval_end, lemma_ws_end_stop,
    lemma_name_end, lemma_aval_end,
};
use crate::json::{
    sp_jstring, sp_jvalue, sp_jnull, sp_jbool, sp_jnumber, sp_jarray_items, sp_jobject_items,
    sp_parse_json,
};
use crate::xml::{sp_attrs, sp_element, attr_insert, lemma_find_key};
use crate::model::find_key;

verus! {

broadcast use vstd::seq::group_seq_axioms;

/// The escaped form of a text depends only on its first `k` characters.
proof fn lemma_jesc_prefix(s1: Seq<char>, s2: Seq<char>, k: int)
    requires
        0 <= k <= s1.len(),
        k <= s2.len(),
        forall|q: int| 0 <= q < k ==> s1[q] == s2[q],
    ensures
        jesc_upto(s1, k) == jesc_upto(s2, k),
    decreases k,
{
    if k > 0 {
        lemma_jesc_prefix(s1, s2, k - 1);
    }
}

/// Peeling the first character off an escaped text.
proof fn lemma_jesc_first(t: Seq<char>)
    requires
        t.len() > 0,
    ensures
        jesc_upto(t, t.len() as int) == jesc_char(t[0]) + jesc_upto(
            t.subrange(1, t.len() as int),
            t.len() - 1,
        ),
    decreases t.len(),
{
    let n = t.len() as int;
    let rest = t.subrange(1, n);
    if n == 1 {
        assert(jesc_upto(t, 0) == Seq::<char>::empty());
        assert(jesc_upto(rest, 0) == Seq::<char>::empty());
        assert(jesc_upto(t, 1) =~= jesc_char(t[0]) + jesc_upto(rest, 0));
    } else {
        let tp = t.subrange(0, n - 1);
        lemma_jesc_first(tp);
        lemma_jesc_prefix(tp, t, n - 1);
        lemma_jesc_prefix(tp.subrange(1, n - 1), rest, n - 2);
        assert(tp.subrange(1, n - 1) =~= rest.subrange(0, n - 2));
        assert(tp[0] == t[0]);
        assert(rest[n - 2] == t[n - 1]);
        assert(jesc_upto(t, n) == jesc_upto(t, n - 1) + jesc_char(t[n - 1]));
        assert(jesc_upto(t, n - 1) == jesc_upto(tp, n - 1));
        assert(jesc_upto(rest, n - 1) == jesc_upto(rest, n - 2) + jesc_char(rest[n - 2]));
        assert(jesc_upto(rest, n - 2) == jesc_upto(tp.subrange(1, n - 1), n - 2));
        assert(jesc_upto(t, n) =~= jesc_char(t[0]) + jesc_upto(rest, n - 1));
    }
}

/// A digit scan inside a larger text mirrors the scan over the embedded
/// text alone, when no digit follows the embedded text.
proof fn lemma_digits_end_embed(s: Seq<char>, i: int, t: Seq<char>, x: int)
    requires
        0 <= i,
        i + t.len() <= s.len(),
        s.subrange(i, i + t.len()) == t,
        0 <= x <= t.len(),
        i + t.len() == s.len() || !is_digit(s[i + t.len()]),
    ensures
        digits_end(s, i + x) == i + digits_end(t, x),
    decreases t.len() - x,
{
    if x < t.len() {
        assert(s[i + x] == t[x]);
        if is_digit(t[x]) {
            lemma_digits_end_embed(s, i, t, x + 1);
        }
    }
}

/// A digit scan never runs backwards nor past the end.
proof fn lemma_digits_bounds(s: Seq<char>, i: int)
    requires
        0 <= i <= s.len(),
    ensures
        i <= digits_end(s, i) <= s.len(),
    decreases s.len() - i,
{
    if i < s.len() && is_digit(s[i]) {
        lemma_digits_bounds(s, i + 1);
    }
}

/// At matching offsets, the embedded text and the larger text agree on
/// every character that the number grammar branches on.
proof fn lemma_num_char_agree(s: Seq<char>, i: int, t: Seq<char>, j: int, x: char)
    requires
        0 <= i,
        i + t.len() <= s.len(),
        s.subrange(i, i + t.len()) == t,
        0 <= j <= t.len(),
        x == '.' || x == 'e' || x == 'E' || x == '+' || x == '-',
        i + t.len() == s.len() || s[i + t.len()] == ',' || s[i + t.len()] == ']' || s[i + t.len()]
            == '}',
    ensures
        (char_at(s, i + j) == Option::Some(x)) == (char_at(t, j) == Option::Some(x)),
{
    if j < t.len() {
        assert(s.subrange(i, i + t.len())[j] == s[i + j]);
    }
}

/// A number literal inside a larger text scans exactly as it does alone,
/// when a separator or the end of the text follows it.
#[verifier::rlimit(100)]
proof fn lemma_jnumber_embed(s: Seq<char>, i: int, t: Seq<char>)
    requires
        0 <= i,
        i + t.len() <= s.len(),
        s.subrange(i, i + t.len()) == t,
        i + t.len() == s.len() || s[i + t.len()] == ',' || s[i + t.len()] == ']' || s[i + t.len()]
            == '}',
        t.len() > 0,
        sp_jnumber(t, 0) == Ok::<(JsonModel, int), Seq<char>>((JsonModel::Num(t), t.len() as int)),
    ensures
        sp_jnumber(s, i) == Ok::<(JsonModel, int), Seq<char>>((JsonModel::Num(t), i + t.len())),
{
    let n = t.len() as int;
    assert(s.subrange(i, i + n)[0] == s[i]);
    lemma_num_char_agree(s, i, t, 0, '-');
    let p1 = if char_at(t, 0) == Option::Some('-') {
        1int
    } else {
        0int
    };
    lemma_digits_end_embed(s, i, t, p1);
    lemma_digits_bounds(t, p1);
    let p2 = digits_end(t, p1);
    lemma_num_char_agree(s, i, t, p2, '.');
    if char_at(t, p2) == Option::Some('.') {
        lemma_digits_end_embed(s, i, t, p2 + 1);
        lemma_digits_bounds(t, p2 + 1);
        let p3 = digits_end(t, p2 + 1);
        lemma_num_char_agree(s, i, t, p3, 'e');
        lemma_num_char_agree(s, i, t, p3, 'E');
        if char_at(t, p3) == Option::Some('e') || char_at(t, p3) == Option::Some('E') {
            lemma_num_char_agree(s, i, t, p3 + 1, '+');
            lemma_num_char_agree(s, i, t, p3 + 1, '-');
            let q = if char_at(t, p3 + 1) == Option::Some('+') || char_at(t, p3 + 1)
                == Option::Some('-') {
                p3 + 2
            } else {
                p3 + 1
            };
            lemma_digits_end_embed(s, i, t, q);
        }
        assert(s.subrange(i, i + n) == t);
    } else {
        lemma_num_char_agree(s, i, t, p2, 'e');
        lemma_num_char_agree(s, i, t, p2, 'E');
        if char_at(t, p2) == Option::Some('e') || char_at(t, p2) == Option::Some('E') {
            lemma_num_char_agree(s, i, t, p2 + 1, '+');
            lemma_num_char_agree(s, i, t, p2 + 1, '-');
            let q = if char_at(t, p2 + 1) == Option::Some('+') || char_at(t, p2 + 1)
                == Option::Some('-') {
                p2 + 2
            } else {
                p2 + 1
            };
            lemma_digits_end_embed(s, i, t, q);
        }
        assert(s.subrange(i, i + n) == t);
    }
}

/// Scanning the escaped form of `t`, a closing quote and then anything at
/// all decodes exactly `t` and stops after the quote.
proof fn lemma_jstring_embed(pre: Seq<char>, t: Seq<char>, acc: Seq<char>, rest: Seq<char>)
    ensures
        ({
            let e = jesc_upto(t, t.len() as int);
            let s = pre + e + "\""@ + rest;
            sp_jstring(s, pre.len() as int, acc) == Ok::<(Seq<char>, int), Seq<char>>(
                (acc + t, pre.len() + e.len() + 1int),
            )
        }),
    decreases t.len(),
{
    reveal_strlit("\"");
    let e = jesc_upto(t, t.len() as int);
    let s = pre + e + "\""@ + rest;
    let i = pre.len() as int;
    if t.len() == 0 {
        assert(e == Seq::<char>::empty());
        assert(s[i] == '"');
        assert(acc + t =~= acc);
    } else {
        lemma_jesc_first(t);
        let c = t[0];
        let rest_t = t.subrange(1, t.len() as int);
        let erest = jesc_upto(rest_t, rest_t.len() as int);
        let pre2 = pre + jesc_char(c);
        lemma_jstring_embed(pre2, rest_t, acc.push(c), rest);
        assert(pre2 + erest + "\""@ + rest =~= s);
        assert(acc.push(c) + rest_t =~= acc + t);
        if c == '"' {
            reveal_strlit("\\\"");
            assert(jesc_char(c).len() == 2 && jesc_char(c)[0] == '\\' && jesc_char(c)[1] == '"');
            assert(s[i] == '\\' && s[i + 1] == '"');
            assert(pre2.len() == i + 2);
        } else if c == '\\' {
            reveal_strlit("\\\\");
            assert(jesc_char(c).len() == 2 && jesc_char(c)[0] == '\\' && jesc_char(c)[1] == '\\');
            assert(s[i] == '\\' && s[i + 1] == '\\');
            assert(pre2.len() == i + 2);
        } else {
            assert(jesc_char(c) == seq![c]);
            assert(s[i] == c);
            assert(pre2.len() == i + 1);
        }
    }
}

/// The digit scan stops at the end or at a non-digit.
proof fn lemma_digits_stop(s: Seq<char>, i: int)
    requires
        0 <= i <= s.len(),
    ensures
        i <= digits_end(s, i) <= s.len(),
        digits_end(s, i) == s.len() || !is_digit(s[digits_end(s, i)]),
    decreases s.len() - i,
{
    if i < s.len() && is_digit(s[i]) {
        lemma_digits_stop(s, i + 1);
    }
}

/// A number literal read out of a larger text scans the same way on its
/// own: the literal re-parses to itself, whole.
#[verifier::rlimit(100)]
proof fn lemma_jnumber_standalone(s: Seq<char>, i: int, m: JsonModel, e: int)
    requires
        0 <= i <= s.len(),
        sp_jnumber(s, i) == Ok::<(JsonModel, int), Seq<char>>((m, e)),
    ensures
        i < e <= s.len(),
        m == JsonModel::Num(s.subrange(i, e)),
        wf_json(m),
    decreases 0int,
{
    let p1 = if char_at(s, i) == Option::Some('-') {
        i + 1
    } else {
        i
    };
    lemma_digits_stop(s, p1);
    let p2 = digits_end(s, p1);
    if char_at(s, p2) == Option::Some('.') {
        lemma_digits_stop(s, p2 + 1);
        let p3 = digits_end(s, p2 + 1);
        if char_at(s, p3) == Option::Some('e') || char_at(s, p3) == Option::Some('E') {
            let q = if char_at(s, p3 + 1) == Option::Some('+') || char_at(s, p3 + 1)
                == Option::Some('-') {
                p3 + 2
            } else {
                p3 + 1
            };
            lemma_digits_stop(s, q);
        }
    } else {
        if char_at(s, p2) == Option::Some('e') || char_at(s, p2) == Option::Some('E') {
            let q = if char_at(s, p2 + 1) == Option::Some('+') || char_at(s, p2 + 1)
                == Option::Some('-') {
                p2 + 2
            } else {
                p2 + 1
            };
            lemma_digits_stop(s, q);
        }
    }
    // the literal, alone, takes the same branches at the same offsets
    let t = s.subrange(i, e);
    assert(s.subrange(i, i + t.len()) =~= t);
    assert forall|x: int|
        0 <= x <= t.len() && (x < t.len() || e == s.len() || !is_digit(s[e])) implies digits_end(
        s,
        i + x,
    ) == i + digits_end(t, x) by {
        lemma_digits_end_embed(s, i, t, x);
    }
    assert forall|q: int| 0 <= q < t.len() implies s[i + q] == t[q] by {
        assert(s.subrange(i, i + t.len() as int)[q] == s[i + q]);
    }
    assert(sp_jnumber(t, 0) == Ok::<(JsonModel, int), Seq<char>>(
        (JsonModel::Num(t.subrange(0, t.len() as int)), t.len() as int),
    ));
    assert(t.subrange(0, t.len() as int) =~= t);
}

/// The string-body scan, when it succeeds, ends past where it began and
/// within the text.
proof fn lemma_jstring_pos(s: Seq<char>, i: int, acc: Seq<char>)
    requires
        0 <= i,
    ensures
        match sp_jstring(s, i, acc) {
            Ok(p) => i < p.1 <= s.len(),
            Err(m) => true,
        },
    decreases s.len() - i,
{
    if 0 <= i < s.len() && s[i] != '"' {
        if s[i] == '\\' {
            if i + 1 < s.len() {
                let c = s[i + 1];
                if c == '"' || c == '\\' || c == '/' || c == 'b' || c == 'f' || c == 'n' || c
                    == 'r' || c == 't' {
                    lemma_jstring_pos(s, i + 2, sp_jstring_arg(s, i, acc));
                }
            }
        } else {
            lemma_jstring_pos(s, i + 1, acc.push(s[i]));
        }
    }
}

/// The accumulator passed on by one step of the string-body scan.
spec fn sp_jstring_arg(s: Seq<char>, i: int, acc: Seq<char>) -> Seq<char> {
    let c = s[i + 1];
    if c == 'b' {
        acc.push('\u{8}')
    } else if c == 'f' {
        acc.push('\u{c}')
    } else if c == 'n' {
        acc.push('\n')
    } else if c == 'r' {
        acc.push('\r')
    } else if c == 't' {
        acc.push('\t')
    } else {
        acc.push(c)
    }
}

/// A separator or the end of the text stands at `p`.
spec fn sep_after(s: Seq<char>, p: int) -> bool {
    p == s.len() || s[p] == ',' || s[p] == ']' || s[p] == '}'
}

/// The written elements of a shorter prefix are a prefix of the written
/// elements of a longer one.
proof fn lemma_items_text_prefix(items: Seq<JsonModel>, k: int, m: int)
    requires
        0 <= k <= m <= items.len(),
    ensures
        jtext_items_upto(items, k).len() <= jtext_items_upto(items, m).len(),
        jtext_items_upto(items, m).subrange(0, jtext_items_upto(items, k).len() as int)
            == jtext_items_upto(items, k),
    decreases m,
{
    if k < m {
        lemma_items_text_prefix(items, k, m - 1);
        assert(jtext_items_upto(items, m).subrange(0, jtext_items_upto(items, k).len() as int)
            =~= jtext_items_upto(items, m - 1).subrange(
            0,
            jtext_items_upto(items, k).len() as int,
        ));
    } else {
        assert(jtext_items_upto(items, m).subrange(0, jtext_items_upto(items, k).len() as int)
            =~= jtext_items_upto(items, k));
    }
}

/// The written members of a shorter prefix are a prefix of the written
/// members of a longer one.
proof fn lemma_members_text_prefix(ms: Seq<(Seq<char>, JsonModel)>, k: int, m: int)
    requires
        0 <= k <= m <= ms.len(),
    ensures
        jtext_members_upto(ms, k).len() <= jtext_members_upto(ms, m).len(),
        jtext_members_upto(ms, m).subrange(0, jtext_members_upto(ms, k).len() as int)
            == jtext_members_upto(ms, k),
    decreases m,
{
    if k < m {
        lemma_members_text_prefix(ms, k, m - 1);
        assert(jtext_members_upto(ms, m).subrange(0, jtext_members_upto(ms, k).len() as int)
            =~= jtext_members_upto(ms, m - 1).subrange(
            0,
            jtext_members_upto(ms, k).len() as int,
        ));
    } else {
        assert(jtext_members_upto(ms, m).subrange(0, jtext_members_upto(ms, k).len() as int)
            =~= jtext_members_upto(ms, k));
    }
}

/// Every element of a writable list is writable.
proof fn lemma_wf_items_at(items: Seq<JsonModel>, k: int, q: int)
    requires
        wf_items(items, k),
        0 <= q < k <= items.len(),
    ensures
        wf_json(items[q]),
    decreases k,
{
    if q < k - 1 {
        lemma_wf_items_at(items, k - 1, q);
    }
}

/// Every member value of a writable member list is writable.
proof fn lemma_wf_members_at(ms: Seq<(Seq<char>, JsonModel)>, k: int, q: int)
    requires
        wf_members(ms, k),
        0 <= q < k <= ms.len(),
    ensures
        wf_json(ms[q].1),
    decreases k,
{
    if q < k - 1 {
        lemma_wf_members_at(ms, k - 1, q);
    }
}

/// Whether all of the first `k` elements are writable.
pub open spec fn wf_items(items: Seq<JsonModel>, k: int) -> bool
    decreases items, 1int, k,
{
    if 0 < k <= items.len() {
        wf_items(items, k - 1) && wf_json(items[k - 1])
    } else {
        true
    }
}

/// Whether all of the first `k` member values are writable.
pub open spec fn wf_members(ms: Seq<(Seq<char>, JsonModel)>, k: int) -> bool
    decreases ms, 2int, k,
{
    if 0 < k <= ms.len() {
        wf_members(ms, k - 1) && wf_json(ms[k - 1].1)
    } else {
        true
    }
}

/// Whether the keys of an object's members are pairwise distinct.
pub open spec fn keys_distinct(ms: Seq<(Seq<char>, JsonModel)>) -> bool {
    forall|a: int, b: int| 0 <= a < b < ms.len() ==> ms[a].0 != ms[b].0
}

/// A value the writer can reproduce: every number literal begins with a
/// sign or a digit and scans as one whole literal, and the keys of every
/// object are distinct at each level.
pub open spec fn wf_json(v: JsonModel) -> bool
    decreases v, 3int, 0int,
{
    match v {
        JsonModel::Null => true,
        JsonModel::Bool(b) => true,
        JsonModel::Num(t) => t.len() > 0 && (is_digit(t[0]) || t[0] == '-') && sp_jnumber(t, 0)
            == Ok::<(JsonModel, int), Seq<char>>((JsonModel::Num(t), t.len() as int)),
        JsonModel::Str(t) => true,
        JsonModel::Arr(items) => wf_items(items, items.len() as int),
        JsonModel::Obj(ms) => keys_distinct(ms) && wf_members(ms, ms.len() as int),
    }
}

/// The written form of a writable value is non-empty and begins with a
/// character that is neither whitespace nor a separator.
proof fn lemma_jtext_first(v: JsonModel)
    requires
        wf_json(v),
    ensures
        jtext_of(v).len() > 0,
        !is_ws(jtext_of(v)[0]),
        jtext_of(v)[0] != ',' && jtext_of(v)[0] != ']' && jtext_of(v)[0] != '}' && jtext_of(v)[0]
            != ':',
{
    reveal_strlit("null");
    reveal_strlit("true");
    reveal_strlit("false");
    reveal_strlit("\"");
    reveal_strlit("[");
    reveal_strlit("{");
    match v {
        JsonModel::Num(t) => {
            assert(jtext_of(v)[0] == t[0]);
        },
        _ => {},
    }
}

/// A value inside a larger text parses exactly as written, when a
/// separator or the end of the text follows it.
#[verifier::rlimit(100)]
proof fn lemma_value_embed(v: JsonModel, s: Seq<char>, i: int)
    requires
        wf_json(v),
        0 <= i,
        i + jtext_of(v).len() <= s.len(),
        s.subrange(i, i + jtext_of(v).len() as int) == jtext_of(v),
        sep_after(s, i + jtext_of(v).len()),
    ensures
        sp_jvalue(s, i) == Ok::<(JsonModel, int), Seq<char>>((v, i + jtext_of(v).len())),
    decreases v, 4int, 0int,
{
    let w = jtext_of(v);
    let l = w.len() as int;
    assert forall|q: int| 0 <= q < l implies s[i + q] == w[q] by {
        assert(s.subrange(i, i + l)[q] == s[i + q]);
    }
    lemma_jtext_first(v);
    assert(s.subrange(i, i + l)[0] == s[i]);
    assert(ws_end(s, i) == i);
    match v {
        JsonModel::Null => {
            reveal_strlit("null");
            assert(s.subrange(i, i + l)[1] == s[i + 1]);
            assert(s.subrange(i, i + l)[2] == s[i + 2]);
            assert(s.subrange(i, i + l)[3] == s[i + 3]);
            assert(sp_jnull(s, i) == Ok::<(JsonModel, int), Seq<char>>((JsonModel::Null, i + 4)));
        },
        JsonModel::Bool(b) => {
            reveal_strlit("true");
            reveal_strlit("false");
            assert(s.subrange(i, i + l)[1] == s[i + 1]);
            assert(s.subrange(i, i + l)[2] == s[i + 2]);
            assert(s.subrange(i, i + l)[3] == s[i + 3]);
            if !b {
                assert(s.subrange(i, i + l)[4] == s[i + 4]);
            }
            assert(sp_jbool(s, i) == Ok::<(JsonModel, int), Seq<char>>(
                (JsonModel::Bool(b), i + l),
            ));
        },
        JsonModel::Num(t) => {
            lemma_jnumber_embed(s, i, t);
        },
        JsonModel::Str(t) => {
            reveal_strlit("\"");
            let e = jesc_upto(t, t.len() as int);
            let pre = s.subrange(0, i + 1);
            let rest = s.subrange(i + l, s.len() as int);
            assert(w == "\""@ + e + "\""@);
            assert forall|q: int| 0 <= q < s.len() implies s[q] == (pre + e + "\""@ + rest)[q] by {
                if q < i + 1 {
                    assert(pre[q] == s[q]);
                } else if q < i + l {
                    assert(s.subrange(i, i + l)[q - i] == s[q]);
                } else {
                    assert(rest[q - (i + l)] == s[q]);
                }
            }
            assert(s =~= pre + e + "\""@ + rest);
            lemma_jstring_embed(pre, t, Seq::empty(), rest);
            assert(Seq::<char>::empty() + t =~= t);
        },
        JsonModel::Arr(items) => {
            reveal_strlit("[");
            reveal_strlit("]");
            let f = jtext_items_upto(items, items.len() as int);
            assert(w == "["@ + f + "]"@);
            assert forall|q: int| 0 <= q < f.len() implies s.subrange(i + 1, i + 1 + f.len() as int)[q]
                == f[q] by {
                assert(s.subrange(i, i + l)[1 + q] == s[i + 1 + q]);
                assert(s.subrange(i + 1, i + 1 + f.len() as int)[q] == s[i + 1 + q]);
            }
            assert(s.subrange(i + 1, i + 1 + f.len() as int) =~= f);
            assert(s.subrange(i, i + l)[1 + f.len() as int] == s[i + 1 + f.len()]);
            assert(s[i + 1 + f.len()] == ']');
            assert(jtext_items_upto(items, 0) == Seq::<char>::empty());
            assert(items.subrange(0, 0) =~= Seq::<JsonModel>::empty());
            lemma_arr_embed(items, 0, s, i + 1);
        },
        JsonModel::Obj(ms) => {
            reveal_strlit("{");
            reveal_strlit("}");
            let f = jtext_members_upto(ms, ms.len() as int);
            assert(w == "{"@ + f + "}"@);
            assert forall|q: int| 0 <= q < f.len() implies s.subrange(i + 1, i + 1 + f.len() as int)[q]
                == f[q] by {
                assert(s.subrange(i, i + l)[1 + q] == s[i + 1 + q]);
                assert(s.subrange(i + 1, i + 1 + f.len() as int)[q] == s[i + 1 + q]);
            }
            assert(s.subrange(i + 1, i + 1 + f.len() as int) =~= f);
            assert(s.subrange(i, i + l)[1 + f.len() as int] == s[i + 1 + f.len()]);
            assert(s[i + 1 + f.len()] == '}');
            assert(jtext_members_upto(ms, 0) == Seq::<char>::empty());
            assert(ms.subrange(0, 0) =~= Seq::<(Seq<char>, JsonModel)>::empty());
            lemma_obj_embed(ms, 0, s, i + 1);
        },
    }
}

/// The array loop, resumed after `k` elements, reads the remaining
/// elements and the closing bracket.
#[verifier::rlimit(100)]
proof fn lemma_arr_embed(items: Seq<JsonModel>, k: int, s: Seq<char>, a0: int)
    requires
        wf_items(items, items.len() as int),
        0 <= k <= items.len(),
        1 <= a0,
        a0 + jtext_items_upto(items, items.len() as int).len() + 1 <= s.len(),
        s.subrange(a0, a0 + jtext_items_upto(items, items.len() as int).len() as int)
            == jtext_items_upto(items, items.len() as int),
        s[a0 + jtext_items_upto(items, items.len() as int).len()] == ']',
        sep_after(s, a0 + jtext_items_upto(items, items.len() as int).len() + 1),
    ensures
        sp_jarray_items(s, a0 + jtext_items_upto(items, k).len() as int, items.subrange(0, k))
            == Ok::<(JsonModel, int), Seq<char>>(
            (
                JsonModel::Arr(items),
                a0 + jtext_items_upto(items, items.len() as int).len() + 1,
            ),
        ),
    decreases items, 5int, items.len() - k,
{
    reveal_strlit(",");
    let n = items.len() as int;
    let f = jtext_items_upto(items, n);
    lemma_items_text_prefix(items, k, n);
    let u1 = jtext_items_upto(items, k).len() as int;
    let p = a0 + u1;
    if k == n {
        assert(s[p] == ']');
        assert(ws_end(s, p) == p);
        assert(items.subrange(0, n) =~= items);
    } else {
        lemma_items_text_prefix(items, k + 1, n);
        let u2 = jtext_items_upto(items, k + 1).len() as int;
        let sep: Seq<char> = if k > 0 {
            ","@
        } else {
            Seq::empty()
        };
        let piece = jtext_of(items[k]);
        assert(jtext_items_upto(items, k + 1) == jtext_items_upto(items, k) + sep + piece);
        assert forall|q: int| 0 <= q < f.len() implies s[a0 + q] == f[q] by {
            assert(s.subrange(a0, a0 + f.len() as int)[q] == s[a0 + q]);
        }
        assert forall|q: int| u1 <= q < u2 implies f[q] == (jtext_items_upto(items, k + 1))[q] by {
            assert(f.subrange(0, u2)[q] == f[q]);
        }
        lemma_wf_items_at(items, n, k);
        lemma_jtext_first(items[k]);
        let slen: int = if k > 0 {
            1int
        } else {
            0int
        };
        let pm = p + slen;
        assert forall|q: int| 0 <= q < piece.len() implies s.subrange(
            pm,
            pm + piece.len() as int,
        )[q] == piece[q] by {
            assert((jtext_items_upto(items, k + 1))[u1 + slen + q] == piece[q]);
        }
        assert(s.subrange(pm, pm + piece.len() as int) =~= piece);
        if k + 1 < n {
            lemma_items_text_prefix(items, k + 2, n);
            assert(jtext_items_upto(items, k + 2) == jtext_items_upto(items, k + 1) + ","@
                + jtext_of(items[k + 1]));
            assert(f[u2] == (jtext_items_upto(items, k + 2))[u2]);
            assert(s[a0 + u2] == ',');
        } else {
            assert(s[a0 + u2] == ']');
        }
        lemma_value_embed(items[k], s, pm);
        if k > 0 {
            assert(jtext_items_upto(items, k + 1)[u1] == ',');
            assert(f[u1] == jtext_items_upto(items, k + 1)[u1]);
            assert(s[a0 + u1] == f[u1]);
            assert(s[p] == ',');
            assert(ws_end(s, p) == p);
            lemma_ws_end_stop(s, p + 1);
            assert(ws_end(s, pm) == pm);
            crate::json::lemma_jvalue_ws(s, p + 1);
        } else {
            assert(s[p] == piece[0]);
            assert(ws_end(s, p) == p);
        }
        assert(items.subrange(0, k).push(items[k]) =~= items.subrange(0, k + 1));
        lemma_arr_embed(items, k + 1, s, a0);
    }
}

/// One object member inside a larger text: the quoted key, the colon and
/// the value parse exactly as written.
#[verifier::rlimit(100)]
proof fn lemma_member_embed(m: (Seq<char>, JsonModel), s: Seq<char>, i: int)
    requires
        wf_json(m.1),
        0 <= i,
        i + jtext_member(m).len() <= s.len(),
        s.subrange(i, i + jtext_member(m).len() as int) == jtext_member(m),
        sep_after(s, i + jtext_member(m).len()),
    ensures
        sp_jvalue(s, i) == Ok::<(JsonModel, int), Seq<char>>(
            (JsonModel::Str(m.0), i + jquote(m.0).len()),
        ),
        s[i + jquote(m.0).len()] == ':',
        sp_jvalue(s, i + jquote(m.0).len() + 1) == Ok::<(JsonModel, int), Seq<char>>(
            (m.1, i + jtext_member(m).len()),
        ),
    decreases m, 4int, 0int,
{
    reveal_strlit("\"");
    reveal_strlit(":");
    let w = jtext_member(m);
    let l = w.len() as int;
    let kq = jquote(m.0);
    let kl = kq.len() as int;
    assert forall|q: int| 0 <= q < l implies s[i + q] == w[q] by {
        assert(s.subrange(i, i + l)[q] == s[i + q]);
    }
    assert(w == kq + ":"@ + jtext_of(m.1));
    // the key
    let e = jesc_upto(m.0, m.0.len() as int);
    let pre = s.subrange(0, i + 1);
    let rest = s.subrange(i + kl, s.len() as int);
    assert(kq == "\""@ + e + "\""@);
    assert forall|q: int| 0 <= q < s.len() implies s[q] == (pre + e + "\""@ + rest)[q] by {
        if q < i + 1 {
            assert(pre[q] == s[q]);
        } else if q < i + kl {
            assert(s.subrange(i, i + l)[q - i] == s[q]);
        } else {
            assert(rest[q - (i + kl)] == s[q]);
        }
    }
    assert(s =~= pre + e + "\""@ + rest);
    lemma_jstring_embed(pre, m.0, Seq::empty(), rest);
    assert(Seq::<char>::empty() + m.0 =~= m.0);
    assert(s.subrange(i, i + l)[0] == s[i]);
    assert(s[i] == '"');
    assert(ws_end(s, i) == i);
    // the colon
    assert(s.subrange(i, i + l)[kl] == s[i + kl]);
    assert(w[kl] == ':');
    assert(s[i + kl] == ':');
    // the value
    lemma_jtext_first(m.1);
    assert forall|q: int| 0 <= q < jtext_of(m.1).len() implies s.subrange(
        i + kl + 1,
        i + l,
    )[q] == jtext_of(m.1)[q] by {
        assert(w[kl + 1 + q] == jtext_of(m.1)[q]);
    }
    assert(s.subrange(i + kl + 1, i + l) =~= jtext_of(m.1));
    lemma_value_embed(m.1, s, i + kl + 1);
}

/// The object loop, resumed after `k` members, reads the remaining
/// members and the closing brace.
#[verifier::rlimit(100)]
proof fn lemma_obj_embed(ms: Seq<(Seq<char>, JsonModel)>, k: int, s: Seq<char>, a0: int)
    requires
        keys_distinct(ms),
        wf_members(ms, ms.len() as int),
        0 <= k <= ms.len(),
        1 <= a0,
        a0 + jtext_members_upto(ms, ms.len() as int).len() + 1 <= s.len(),
        s.subrange(a0, a0 + jtext_members_upto(ms, ms.len() as int).len() as int)
            == jtext_members_upto(ms, ms.len() as int),
        s[a0 + jtext_members_upto(ms, ms.len() as int).len()] == '}',
        sep_after(s, a0 + jtext_members_upto(ms, ms.len() as int).len() + 1),
    ensures
        sp_jobject_items(s, a0 + jtext_members_upto(ms, k).len() as int, ms.subrange(0, k))
            == Ok::<(JsonModel, int), Seq<char>>(
            (
                JsonModel::Obj(ms),
                a0 + jtext_members_upto(ms, ms.len() as int).len() + 1,
            ),
        ),
    decreases ms, 5int, ms.len() - k,
{
    reveal_strlit(",");
    reveal_strlit("\"");
    let n = ms.len() as int;
    let f = jtext_members_upto(ms, n);
    lemma_members_text_prefix(ms, k, n);
    let u1 = jtext_members_upto(ms, k).len() as int;
    let p = a0 + u1;
    if k == n {
        assert(s[p] == '}');
        assert(ws_end(s, p) == p);
        assert(ms.subrange(0, n) =~= ms);
    } else {
        lemma_members_text_prefix(ms, k + 1, n);
        let u2 = jtext_members_upto(ms, k + 1).len() as int;
        let sep: Seq<char> = if k > 0 {
            ","@
        } else {
            Seq::empty()
        };
        let piece = jtext_member(ms[k]);
        assert(jtext_members_upto(ms, k + 1) == jtext_members_upto(ms, k) + sep + piece);
        assert forall|q: int| 0 <= q < f.len() implies s[a0 + q] == f[q] by {
            assert(s.subrange(a0, a0 + f.len() as int)[q] == s[a0 + q]);
        }
        assert forall|q: int| u1 <= q < u2 implies f[q] == (jtext_members_upto(ms, k + 1))[q] by {
            assert(f.subrange(0, u2)[q] == f[q]);
        }
        lemma_wf_members_at(ms, n, k);
        let slen: int = if k > 0 {
            1int
        } else {
            0int
        };
        let pm = p + slen;
        assert forall|q: int| 0 <= q < piece.len() implies s.subrange(
            pm,
            pm + piece.len() as int,
        )[q] == piece[q] by {
            assert((jtext_members_upto(ms, k + 1))[u1 + slen + q] == piece[q]);
        }
        assert(s.subrange(pm, pm + piece.len() as int) =~= piece);
        if k + 1 < n {
            lemma_members_text_prefix(ms, k + 2, n);
            assert(jtext_members_upto(ms, k + 2) == jtext_members_upto(ms, k + 1) + ","@
                + jtext_member(ms[k + 1]));
            assert(f[u2] == (jtext_members_upto(ms, k + 2))[u2]);
            assert(s[a0 + u2] == ',');
        } else {
            assert(s[a0 + u2] == '}');
        }
        lemma_member_embed(ms[k], s, pm);
        assert(piece[0] == '"');
        if k > 0 {
            assert(jtext_members_upto(ms, k + 1)[u1] == ',');
            assert(f[u1] == jtext_members_upto(ms, k + 1)[u1]);
            assert(s[a0 + u1] == f[u1]);
            assert(s[p] == ',');
            assert(ws_end(s, p) == p);
            lemma_ws_end_stop(s, p + 1);
            crate::json::lemma_jvalue_ws(s, p + 1);
        } else {
            assert(s[p] == '"');
            assert(ws_end(s, p) == p);
        }
        // the colon and the member value stand where the member lemma says
        let kl = jquote(ms[k].0).len() as int;
        assert(ws_end(s, pm + kl) == pm + kl);
        // a fresh key is appended, never folded into an earlier member
        let acc = ms.subrange(0, k);
        lemma_find_key(acc, ms[k].0);
        assert(find_key(acc, ms[k].0) == -1) by {
            if find_key(acc, ms[k].0) >= 0 {
                let fk = find_key(acc, ms[k].0);
                assert(acc[fk] == ms[fk]);
            }
        }
        assert(obj_insert(acc, ms[k].0, ms[k].1) =~= ms.subrange(0, k + 1));
        lemma_obj_embed(ms, k + 1, s, a0);
    }
}

/// `wf_items` depends only on the first `k` elements.
proof fn lemma_wf_items_prefix(s1: Seq<JsonModel>, s2: Seq<JsonModel>, k: int)
    requires
        0 <= k <= s1.len(),
        k <= s2.len(),
        forall|q: int| 0 <= q < k ==> s1[q] == s2[q],
        wf_items(s1, k),
    ensures
        wf_items(s2, k),
    decreases k,
{
    if k > 0 {
        lemma_wf_items_prefix(s1, s2, k - 1);
    }
}

/// A writable element appended to a writable list keeps the list writable.
proof fn lemma_wf_items_push(acc: Seq<JsonModel>, v: JsonModel)
    requires
        wf_items(acc, acc.len() as int),
        wf_json(v),
    ensures
        wf_items(acc.push(v), acc.len() + 1int),
{
    lemma_wf_items_prefix(acc, acc.push(v), acc.len() as int);
}

/// A member list whose values are all writable is writable.
proof fn lemma_wf_members_build(ms: Seq<(Seq<char>, JsonModel)>, k: int)
    requires
        0 <= k <= ms.len(),
        forall|q: int| 0 <= q < k ==> wf_json(ms[q].1),
    ensures
        wf_members(ms, k),
    decreases k,
{
    if k > 0 {
        lemma_wf_members_build(ms, k - 1);
    }
}

/// Storing one writable member keeps the member list writable with
/// pairwise distinct keys.
proof fn lemma_obj_insert_wf(acc: Seq<(Seq<char>, JsonModel)>, key: Seq<char>, v: JsonModel)
    requires
        keys_distinct(acc),
        wf_members(acc, acc.len() as int),
        wf_json(v),
    ensures
        keys_distinct(obj_insert(acc, key, v)),
        wf_members(obj_insert(acc, key, v), obj_insert(acc, key, v).len() as int),
{
    lemma_find_key(acc, key);
    let r = obj_insert(acc, key, v);
    let idx = find_key(acc, key);
    assert forall|q: int| 0 <= q < acc.len() implies wf_json(acc[q].1) by {
        lemma_wf_members_at(acc, acc.len() as int, q);
    }
    if idx < 0 {
        assert forall|q: int| 0 <= q < acc.len() implies acc[q].0 != key by {
            if acc[q].0 == key {
                assert(0 <= find_key(acc, key));
            }
        }
        lemma_wf_members_build(r, r.len() as int);
    } else {
        assert forall|a: int, b: int| 0 <= a < b < r.len() implies r[a].0 != r[b].0 by {
            assert(r[a].0 == acc[a].0);
            assert(r[b].0 == acc[b].0);
        }
        lemma_wf_members_build(r, r.len() as int);
    }
}

/// Every value the parser returns is writable: its number literals carry
/// exactly one whole grammatical literal and its object keys are distinct
/// at each level.
pub proof fn lemma_parsed_value_wf(s: Seq<char>, i: int)
    requires
        0 <= i <= s.len(),
    ensures
        match sp_jvalue(s, i) {
            Ok(p) => i < p.1 <= s.len() && wf_json(p.0),
            Err(m) => true,
        },
    decreases s.len() - i, 0int,
{
    lemma_ws_end_stop(s, i);
    let j = ws_end(s, i);
    match char_at(s, j) {
        Option::None => {},
        Option::Some(c) => {
            if c == 'n' || c == 't' || c == 'f' {
            } else if c == '"' {
                lemma_jstring_pos(s, j + 1, Seq::empty());
            } else if c == '[' {
                lemma_parsed_arr_wf(s, j + 1, Seq::empty());
            } else if c == '{' {
                lemma_parsed_obj_wf(s, j + 1, Seq::empty());
            } else if is_digit(c) || c == '-' {
                match sp_jnumber(s, j) {
                    Ok((m, e)) => {
                        lemma_jnumber_standalone(s, j, m, e);
                    },
                    Err(m) => {},
                }
            }
        },
    }
}

/// The array loop only returns arrays of writable elements, past where it
/// began.
proof fn lemma_parsed_arr_wf(s: Seq<char>, i: int, acc: Seq<JsonModel>)
    requires
        0 <= i <= s.len(),
        wf_items(acc, acc.len() as int),
    ensures
        match sp_jarray_items(s, i, acc) {
            Ok(p) => i < p.1 <= s.len() && wf_json(p.0),
            Err(m) => true,
        },
    decreases s.len() - i, 1int,
{
    lemma_ws_end_stop(s, i);
    let j = ws_end(s, i);
    match char_at(s, j) {
        Option::None => {},
        Option::Some(c) => {
            if c == ']' {
            } else if acc.len() > 0 && c != ',' {
            } else {
                let k = if acc.len() > 0 {
                    j + 1
                } else {
                    j
                };
                lemma_parsed_value_wf(s, k);
                match sp_jvalue(s, k) {
                    Ok((v, e)) => {
                        lemma_wf_items_push(acc, v);
                        lemma_parsed_arr_wf(s, e, acc.push(v));
                    },
                    Err(m) => {},
                }
            }
        },
    }
}

/// The object loop only returns objects of writable members with distinct
/// keys, past where it began.
proof fn lemma_parsed_obj_wf(s: Seq<char>, i: int, acc: Seq<(Seq<char>, JsonModel)>)
    requires
        0 <= i <= s.len(),
        keys_distinct(acc),
        wf_members(acc, acc.len() as int),
    ensures
        match sp_jobject_items(s, i, acc) {
            Ok(p) => i < p.1 <= s.len() && wf_json(p.0),
            Err(m) => true,
        },
    decreases s.len() - i, 1int,
{
    lemma_ws_end_stop(s, i);
    let j = ws_end(s, i);
    match char_at(s, j) {
        Option::None => {},
        Option::Some(c) => {
            if c == '}' {
            } else if acc.len() > 0 && c != ',' {
            } else {
                let k = if acc.len() > 0 {
                    j + 1
                } else {
                    j
                };
                lemma_parsed_value_wf(s, k);
                match sp_jvalue(s, k) {
                    Ok((keyv, e1)) => match keyv {
                        JsonModel::Str(key) => {
                            lemma_ws_end_stop(s, e1);
                            let j2 = ws_end(s, e1);
                            if char_at(s, j2) == Option::Some(':') {
                                lemma_parsed_value_wf(s, j2 + 1);
                                match sp_jvalue(s, j2 + 1) {
                                    Ok((v, e2)) => {
                                        lemma_obj_insert_wf(acc, key, v);
                                        lemma_parsed_obj_wf(s, e2, obj_insert(acc, key, v));
                                    },
                                    Err(m) => {},
                                }
                            }
                        },
                        _ => {},
                    },
                    Err(m) => {},
                }
            }
        },
    }
}

/// Round trip within the JSON format: parsing the written form of any
/// writable value yields that value back.  Writable means every number
/// literal begins with a sign or a digit and scans as one whole literal,
/// and object keys are distinct at each level.
pub proof fn lemma_json_round_trip(v: JsonModel)
    requires
        wf_json(v),
    ensures
        sp_parse_json(jtext_of(v)) == Ok::<JsonModel, Seq<char>>(v),
{
    let s = jtext_of(v);
    lemma_jtext_first(v);
    assert(s.subrange(0, s.len() as int) =~= s);
    lemma_value_embed(v, s, 0);
    assert(ws_end(s, s.len() as int) == s.len());
}

/// The format-internal round trip over any source text: whatever value a
/// text parses to, re-serializing that value and parsing again reproduces
/// it, with no side condition.
pub proof fn lemma_parse_write_parse(s: Seq<char>)
    requires
        sp_parse_json(s) is Ok,
    ensures
        sp_parse_json(jtext_of(sp_parse_json(s)->Ok_0)) == Ok::<JsonModel, Seq<char>>(
            sp_parse_json(s)->Ok_0,
        ),
{
    lemma_parsed_value_wf(s, 0);
    lemma_json_round_trip(sp_parse_json(s)->Ok_0);
}

/// The attribute scan never runs backwards nor past the end.
proof fn lemma_sp_attrs_pos(s: Seq<char>, i: int, acc: Seq<(Seq<char>, Seq<char>)>)
    requires
        0 <= i <= s.len(),
    ensures
        match sp_attrs(s, i, acc) {
            Ok(p) => i <= p.1 <= s.len(),
            Err(m) => true,
        },
    decreases s.len() - i,
{
    lemma_ws_end_stop(s, i);
    let j = ws_end(s, i);
    if j < s.len() && !(s[j] == '>' || s[j] == '/') {
        lemma_name_end(s, j);
        let ne = name_end(s, j);
        if ne > j {
            lemma_ws_end_stop(s, ne);
            let j2 = ws_end(s, ne);
            if j2 < s.len() && s[j2] == '=' {
                lemma_ws_end_stop(s, j2 + 1);
                let j3 = ws_end(s, j2 + 1);
                if j3 < s.len() && s[j3] == '"' {
                    lemma_aval_end(s, j3 + 1);
                    let e = aval_end(s, j3 + 1);
                    if e < s.len() {
                        lemma_sp_attrs_pos(
                            s,
                            e + 1,
                            attr_insert(acc, s.subrange(j, ne), s.subrange(j3 + 1, e)),
                        );
                    }
                }
            }
        }
    }
}

/// Leading whitespace before an element does not change the outcome of
/// parsing it: the scan to the first non-blank character may be taken
/// before or inside `sp_element`.
pub proof fn lemma_element_ws(s: Seq<char>, i: int)
    requires
        0 <= i <= s.len(),
    ensures
        sp_element(s, ws_end(s, i)) == sp_element(s, i),
{
    lemma_ws_end_stop(s, i);
    let w = ws_end(s, i);
    let j = ws_end(s, w);
    if j < s.len() && s[j] == '<' {
        lemma_name_end(s, j + 1);
        let ne = name_end(s, j + 1);
        if ne > j + 1 {
            lemma_sp_attrs_pos(s, ne, Seq::empty());
            match sp_attrs(s, ne, Seq::empty()) {
                Ok(p) => {
                    lemma_ws_end_stop(s, p.1);
                },
                Err(m) => {},
            }
        }
    }
}

} // verus!
