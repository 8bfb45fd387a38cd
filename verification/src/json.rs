//! The JSON side: the value type and its recursive-descent parser.

use vstd::prelude::*;
use crate::model::{JsonModel, find_key, obj_insert};
use crate::chars::{
    char_at, is_digit, ws_end, digits_end, is_ws_char, is_digit_char, push_char,
    lemma_ws_end_stop,
};
use crate::err::{unexpected_char, msg_unexpected_char};
use crate::xml::lemma_find_key;
use vstd::string::{StringExecFns, StrSliceExecFns};

verus! {

broadcast use vstd::std_specs::vec::group_vec_axioms, vstd::seq::group_seq_axioms;

/// One JSON value.  A number is kept as its literal text, exactly as it
/// stood in the source; the grammar guarantees the literal denotes a
/// decimal number.
#[derive(Debug, PartialEq, Eq)]
pub enum JsonValue {
    Null,
    Boolean(bool),
    Number(String),
    String(String),
    Array(Vec<JsonValue>),
    Object(Vec<(String, JsonValue)>),
}

/// The abstract form of the first `k` elements of an array.
pub open spec fn items_model_upto(items: Vec<JsonValue>, k: int) -> Seq<JsonModel>
    decreases items, 1int, k,
{
    if 0 < k <= items.len() {
        items_model_upto(items, k - 1).push(value_model(items[k - 1]))
    } else {
        Seq::empty()
    }
}

/// The abstract form of one object member.
pub open spec fn member_model(m: (String, JsonValue)) -> (Seq<char>, JsonModel)
    decreases m, 2int, 0int,
{
    (m.0@, value_model(m.1))
}

/// The abstract form of the first `k` members of an object.
pub open spec fn members_model_upto(ms: Vec<(String, JsonValue)>, k: int) -> Seq<
    (Seq<char>, JsonModel),
>
    decreases ms, 3int, k,
{
    if 0 < k <= ms.len() {
        members_model_upto(ms, k - 1).push(member_model(ms[k - 1]))
    } else {
        Seq::empty()
    }
}

/// The abstract form of one value.
pub open spec fn value_model(v: JsonValue) -> JsonModel
    decreases v, 4int, 0int,
{
    match v {
        JsonValue::Null => JsonModel::Null,
        JsonValue::Boolean(b) => JsonModel::Bool(b),
        JsonValue::Number(t) => JsonModel::Num(t@),
        JsonValue::String(s) => JsonModel::Str(s@),
        JsonValue::Array(items) => JsonModel::Arr(
            items_model_upto(items, items.len() as int),
        ),
        JsonValue::Object(members) => JsonModel::Obj(
            members_model_upto(members, members.len() as int),
        ),
    }
}

impl View for JsonValue {
    type V = JsonModel;

    open spec fn view(&self) -> JsonModel {
        value_model(*self)
    }
}

/// The item models of the first `k` elements are exactly the elements' models.
pub proof fn lemma_items_model(items: Vec<JsonValue>, k: int)
    requires
        0 <= k <= items.len(),
    ensures
        items_model_upto(items, k).len() == k,
        forall|q: int|
            0 <= q < k ==> #[trigger] items_model_upto(items, k)[q] == value_model(items[q]),
    decreases k,
{
    if k > 0 {
        lemma_items_model(items, k - 1);
    }
}

/// The member models of the first `k` members are exactly the members' models.
pub proof fn lemma_members_model(ms: Vec<(String, JsonValue)>, k: int)
    requires
        0 <= k <= ms.len(),
    ensures
        members_model_upto(ms, k).len() == k,
        forall|q: int|
            0 <= q < k ==> #[trigger] members_model_upto(ms, k)[q] == (
                ms[q].0@,
                value_model(ms[q].1),
            ),
    decreases k,
{
    if k > 0 {
        lemma_members_model(ms, k - 1);
        assert(members_model_upto(ms, k)[k - 1] == member_model(ms[k - 1]));
        assert(member_model(ms[k - 1]) == (ms[k - 1].0@, value_model(ms[k - 1].1)));
    }
}

/// Outcome of reading the literal `null` at `i`.
pub open spec fn sp_jnull(s: Seq<char>, i: int) -> Result<(JsonModel, int), Seq<char>> {
    if i + 4 <= s.len() && s[i] == 'n' && s[i + 1] == 'u' && s[i + 2] == 'l' && s[i + 3] == 'l' {
        Ok((JsonModel::Null, i + 4))
    } else {
        Err("Expected null"@)
    }
}

/// Outcome of reading `true` or `false` at `i`.
pub open spec fn sp_jbool(s: Seq<char>, i: int) -> Result<(JsonModel, int), Seq<char>> {
    if i + 4 <= s.len() && s[i] == 't' && s[i + 1] == 'r' && s[i + 2] == 'u' && s[i + 3] == 'e' {
        Ok((JsonModel::Bool(true), i + 4))
    } else if i + 5 <= s.len() && s[i] == 'f' && s[i + 1] == 'a' && s[i + 2] == 'l' && s[i + 3]
        == 's' && s[i + 4] == 'e' {
        Ok((JsonModel::Bool(false), i + 5))
    } else {
        Err("Expected true or false"@)
    }
}

/// Outcome of the string-body scan at `i` (just past the opening quote)
/// with the characters decoded so far: the decoded text and the position
/// after the closing quote.  The supported escapes are `\"`, `\\`, `\/`,
/// `\b`, `\f`, `\n`, `\r` and `\t`.
pub open spec fn sp_jstring(s: Seq<char>, i: int, acc: Seq<char>) -> Result<
    (Seq<char>, int),
    Seq<char>,
>
    decreases s.len() - i,
{
    if !(0 <= i < s.len()) {
        Err("Unterminated string"@)
    } else if s[i] == '"' {
        Ok((acc, i + 1))
    } else if s[i] == '\\' {
        if i + 1 < s.len() {
            let e = s[i + 1];
            if e == '"' || e == '\\' || e == '/' {
                sp_jstring(s, i + 2, acc.push(e))
            } else if e == 'b' {
                sp_jstring(s, i + 2, acc.push('\u{8}'))
            } else if e == 'f' {
                sp_jstring(s, i + 2, acc.push('\u{c}'))
            } else if e == 'n' {
                sp_jstring(s, i + 2, acc.push('\n'))
            } else if e == 'r' {
                sp_jstring(s, i + 2, acc.push('\r'))
            } else if e == 't' {
                sp_jstring(s, i + 2, acc.push('\t'))
            } else {
                Err("Invalid escape sequence"@)
            }
        } else {
            Err("Unterminated string"@)
        }
    } else {
        sp_jstring(s, i + 1, acc.push(s[i]))
    }
}

/// Last step of reading a number: the literal from `start` to `end`
/// denotes a number only when its integer part holds at least one digit,
/// as the grammar demands.
pub open spec fn sp_jnum_fin(s: Seq<char>, start: int, end: int, has_int: bool) -> Result<
    (JsonModel, int),
    Seq<char>,
> {
    if has_int {
        Ok((JsonModel::Num(s.subrange(start, end)), end))
    } else {
        Err("Invalid number"@)
    }
}

/// Optional exponent part of a number at `p`: `e` or `E`, an optional
/// sign, then at least one digit.
pub open spec fn sp_jnum_expo(s: Seq<char>, start: int, p: int, has_int: bool) -> Result<
    (JsonModel, int),
    Seq<char>,
> {
    if char_at(s, p) == Option::Some('e') || char_at(s, p) == Option::Some('E') {
        let q = if char_at(s, p + 1) == Option::Some('+') || char_at(s, p + 1) == Option::Some(
            '-',
        ) {
            p + 2
        } else {
            p + 1
        };
        let qd = digits_end(s, q);
        if qd == q {
            Err("Expected digit after exponent"@)
        } else {
            sp_jnum_fin(s, start, qd, has_int)
        }
    } else {
        sp_jnum_fin(s, start, p, has_int)
    }
}

/// Outcome of reading a number literal at `i`: an optional `-`, then at
/// least one digit, an optional fraction (digits required), an optional
/// exponent.  A literal with an empty integer part does not match the
/// grammar, whatever its fraction holds.
pub open spec fn sp_jnumber(s: Seq<char>, i: int) -> Result<(JsonModel, int), Seq<char>> {
    let p1 = if char_at(s, i) == Option::Some('-') {
        i + 1
    } else {
        i
    };
    let p2 = digits_end(s, p1);
    if char_at(s, p2) == Option::Some('.') {
        let p3 = digits_end(s, p2 + 1);
        if p3 == p2 + 1 {
            Err("Expected digit after decimal point"@)
        } else {
            sp_jnum_expo(s, i, p3, p2 > p1)
        }
    } else {
        sp_jnum_expo(s, i, p2, p2 > p1)
    }
}

/// Outcome of reading one JSON value at `i`, after skipping whitespace:
/// the lookahead character picks the production.
///
/// The position guards before recursive calls only bound the measure; the
/// scans cannot run backwards, so the `arbitrary()` branches are never
/// taken.
pub open spec fn sp_jvalue(s: Seq<char>, i: int) -> Result<(JsonModel, int), Seq<char>>
    decreases s.len() - i, 0int,
{
    let j = ws_end(s, i);
    match char_at(s, j) {
        Option::None => Err("Unexpected end of input"@),
        Option::Some(c) => {
            if c == 'n' {
                sp_jnull(s, j)
            } else if c == 't' || c == 'f' {
                sp_jbool(s, j)
            } else if c == '"' {
                match sp_jstring(s, j + 1, Seq::empty()) {
                    Ok(p) => Ok((JsonModel::Str(p.0), p.1)),
                    Err(m) => Err(m),
                }
            } else if c == '[' {
                if i <= j {
                    sp_jarray_items(s, j + 1, Seq::empty())
                } else {
                    arbitrary()
                }
            } else if c == '{' {
                if i <= j {
                    sp_jobject_items(s, j + 1, Seq::empty())
                } else {
                    arbitrary()
                }
            } else if is_digit(c) || c == '-' {
                sp_jnumber(s, j)
            } else {
                Err(unexpected_char(c))
            }
        },
    }
}

/// Outcome of the array loop at `i` with the elements read so far: after
/// the first element each further one is preceded by a comma; `]` ends the
/// array.
///
/// The position guards only bound the measure; see `sp_jvalue`.
pub open spec fn sp_jarray_items(s: Seq<char>, i: int, acc: Seq<JsonModel>) -> Result<
    (JsonModel, int),
    Seq<char>,
>
    decreases s.len() - i, 1int,
{
    let j = ws_end(s, i);
    match char_at(s, j) {
        Option::None => if acc.len() == 0 {
            Err("Unexpected end of input"@)
        } else {
            Err("Expected comma"@)
        },
        Option::Some(c) => {
            if c == ']' {
                Ok((JsonModel::Arr(acc), j + 1))
            } else if acc.len() > 0 && c != ',' {
                Err("Expected comma"@)
            } else {
                let k = if acc.len() > 0 {
                    j + 1
                } else {
                    j
                };
                if i <= j && k <= s.len() {
                    match sp_jvalue(s, k) {
                        Err(m) => Err(m),
                        Ok((v, e)) => if i < e && e <= s.len() {
                            sp_jarray_items(s, e, acc.push(v))
                        } else {
                            arbitrary()
                        },
                    }
                } else {
                    arbitrary()
                }
            }
        },
    }
}

/// Outcome of the object loop at `i` with the members read so far: after
/// the first member each further one is preceded by a comma; a member is a
/// string key, a colon and a value; `}` ends the object; a repeated key
/// keeps the last value.
///
/// The position guards only bound the measure; see `sp_jvalue`.
pub open spec fn sp_jobject_items(s: Seq<char>, i: int, acc: Seq<(Seq<char>, JsonModel)>) -> Result<
    (JsonModel, int),
    Seq<char>,
>
    decreases s.len() - i, 1int,
{
    let j = ws_end(s, i);
    match char_at(s, j) {
        Option::None => if acc.len() == 0 {
            Err("Unexpected end of input"@)
        } else {
            Err("Expected comma"@)
        },
        Option::Some(c) => {
            if c == '}' {
                Ok((JsonModel::Obj(acc), j + 1))
            } else if acc.len() > 0 && c != ',' {
                Err("Expected comma"@)
            } else {
                let k = if acc.len() > 0 {
                    j + 1
                } else {
                    j
                };
                if i <= j && k <= s.len() {
                    match sp_jvalue(s, k) {
                        Err(m) => Err(m),
                        Ok((keyv, e1)) => match keyv {
                            JsonModel::Str(key) => {
                                let j2 = ws_end(s, e1);
                                if char_at(s, j2) == Option::Some(':') {
                                    if i <= j2 {
                                        match sp_jvalue(s, j2 + 1) {
                                            Err(m) => Err(m),
                                            Ok((v, e2)) => if i < e2 && e2 <= s.len() {
                                                sp_jobject_items(s, e2, obj_insert(acc, key, v))
                                            } else {
                                                arbitrary()
                                            },
                                        }
                                    } else {
                                        arbitrary()
                                    }
                                } else {
                                    Err("Expected colon"@)
                                }
                            },
                            _ => Err("Expected string as object key"@),
                        },
                    }
                } else {
                    arbitrary()
                }
            }
        },
    }
}

/// Reading a value is insensitive to leading whitespace: the scan to the
/// first non-blank character may be taken before or inside `sp_jvalue`.
pub proof fn lemma_jvalue_ws(s: Seq<char>, i: int)
    requires
        0 <= i <= s.len(),
    ensures
        sp_jvalue(s, ws_end(s, i)) == sp_jvalue(s, i),
{
    lemma_ws_end_stop(s, i);
}

/// Outcome of parsing a whole JSON document: one value, then only
/// whitespace up to the end of the input.
pub open spec fn sp_parse_json(s: Seq<char>) -> Result<JsonModel, Seq<char>> {
    match sp_jvalue(s, 0) {
        Err(m) => Err(m),
        Ok((v, e)) => if ws_end(s, e) < s.len() {
            Err("Unexpected characters after JSON value"@)
        } else {
            Ok(v)
        },
    }
}

/// The scanning state of the JSON parser: the decoded input and the
/// current position in it.
pub struct JsonParser {
    pub input: Vec<char>,
    pub position: usize,
}

impl JsonParser {
    /// A parser positioned at the start of the given input.
    pub fn new(input: &str) -> (p: JsonParser)
        ensures
            p.input@ == input@,
            p.position == 0,
    {
        let n = input.unicode_len();
        let mut v: Vec<char> = Vec::new();
        let mut i: usize = 0;
        while i < n
            invariant
                n == input@.len(),
                0 <= i <= n,
                v@ =~= input@.subrange(0, i as int),
            decreases n - i,
        {
            v.push(input.get_char(i));
            i += 1;
        }
        proof {
            assert(v@ =~= input@);
        }
        JsonParser { input: v, position: 0 }
    }

    /// The current character, if any.
    fn peek_char(&self) -> (r: Option<char>)
        requires
            self.position <= self.input.len(),
        ensures
            r == char_at(self.input@, self.position as int),
    {
        if self.position < self.input.len() {
            Some(self.input[self.position])
        } else {
            None
        }
    }

    /// Returns the current character and advances past it; at the end it
    /// returns `None` and stays.
    fn next_char(&mut self) -> (r: Option<char>)
        requires
            old(self).position <= old(self).input.len(),
        ensures
            final(self).input == old(self).input,
            r == char_at(old(self).input@, old(self).position as int),
            r is Some ==> final(self).position == old(self).position + 1,
            r is None ==> final(self).position == old(self).position,
            final(self).position <= final(self).input.len(),
    {
        if self.position < self.input.len() {
            let c = self.input[self.position];
            self.position = self.position + 1;
            Some(c)
        } else {
            None
        }
    }

    /// Advances past the maximal run of whitespace.
    #[verifier::loop_isolation(false)]
    fn skip_whitespace(&mut self)
        requires
            old(self).position <= old(self).input.len(),
        ensures
            final(self).input == old(self).input,
            final(self).position == ws_end(old(self).input@, old(self).position as int),
            old(self).position <= final(self).position <= final(self).input.len(),
    {
        while self.position < self.input.len() && is_ws_char(self.input[self.position])
            invariant
                self.input == old(self).input,
                old(self).position <= self.position <= self.input.len(),
                ws_end(self.input@, old(self).position as int) == ws_end(
                    self.input@,
                    self.position as int,
                ),
            decreases self.input.len() - self.position,
        {
            self.position = self.position + 1;
        }
    }

    /// Reads the literal `null`.
    fn parse_null(&mut self) -> (r: Result<JsonValue, String>)
        requires
            old(self).position <= old(self).input.len(),
        ensures
            final(self).input == old(self).input,
            final(self).position <= final(self).input.len(),
            old(self).position <= final(self).position,
            match sp_jnull(old(self).input@, old(self).position as int) {
                Ok(p) => r is Ok && r->Ok_0@ == p.0 && final(self).position as int == p.1,
                Err(m) => r is Err && r->Err_0@ == m && final(self).position == old(
                    self,
                ).position,
            },
    {
        if self.input.len() - self.position >= 4 && self.input[self.position] == 'n'
            && self.input[self.position + 1] == 'u' && self.input[self.position + 2] == 'l'
            && self.input[self.position + 3] == 'l' {
            self.position = self.position + 4;
            Ok(JsonValue::Null)
        } else {
            Err(String::from_str("Expected null"))
        }
    }

    /// Reads the literal `true` or `false`.
    fn parse_boolean(&mut self) -> (r: Result<JsonValue, String>)
        requires
            old(self).position <= old(self).input.len(),
        ensures
            final(self).input == old(self).input,
            final(self).position <= final(self).input.len(),
            old(self).position <= final(self).position,
            match sp_jbool(old(self).input@, old(self).position as int) {
                Ok(p) => r is Ok && r->Ok_0@ == p.0 && final(self).position as int == p.1,
                Err(m) => r is Err && r->Err_0@ == m && final(self).position == old(
                    self,
                ).position,
            },
    {
        if self.input.len() - self.position >= 4 && self.input[self.position] == 't'
            && self.input[self.position + 1] == 'r' && self.input[self.position + 2] == 'u'
            && self.input[self.position + 3] == 'e' {
            self.position = self.position + 4;
            Ok(JsonValue::Boolean(true))
        } else if self.input.len() - self.position >= 5 && self.input[self.position] == 'f'
            && self.input[self.position + 1] == 'a' && self.input[self.position + 2] == 'l'
            && self.input[self.position + 3] == 's' && self.input[self.position + 4] == 'e' {
            self.position = self.position + 5;
            Ok(JsonValue::Boolean(false))
        } else {
            Err(String::from_str("Expected true or false"))
        }
    }

    /// Reads a string, decoding the supported escapes; the opening quote
    /// stands at the current position.
    #[verifier::loop_isolation(false)]
    fn parse_string(&mut self) -> (r: Result<JsonValue, String>)
        requires
            old(self).position < old(self).input.len(),
        ensures
            final(self).input == old(self).input,
            final(self).position <= final(self).input.len(),
            old(self).position <= final(self).position,
            old(self).position < final(self).position,
            match sp_jstring(old(self).input@, old(self).position + 1, Seq::empty()) {
                Ok(p) => r is Ok && r->Ok_0@ == JsonModel::Str(p.0) && final(self).position as int
                    == p.1,
                Err(m) => r is Err && r->Err_0@ == m,
            },
    {
        let ghost s = self.input@;
        self.next_char();
        let mut text = String::new();
        loop
            invariant
                self.input == old(self).input,
                old(self).position < self.position <= self.input.len(),
                sp_jstring(s, old(self).position + 1, Seq::empty()) == sp_jstring(
                    s,
                    self.position as int,
                    text@,
                ),
            decreases self.input.len() - self.position,
        {
            let c = match self.next_char() {
                Some(c) => c,
                None => {
                    return Err(String::from_str("Unterminated string"));
                },
            };
            if c == '"' {
                return Ok(JsonValue::String(text));
            } else if c == '\\' {
                match self.next_char() {
                    None => {},
                    Some(e) => {
                        if e == '"' || e == '\\' || e == '/' {
                            push_char(&mut text, e);
                        } else if e == 'b' {
                            push_char(&mut text, '\u{8}');
                        } else if e == 'f' {
                            push_char(&mut text, '\u{c}');
                        } else if e == 'n' {
                            push_char(&mut text, '\n');
                        } else if e == 'r' {
                            push_char(&mut text, '\r');
                        } else if e == 't' {
                            push_char(&mut text, '\t');
                        } else {
                            return Err(String::from_str("Invalid escape sequence"));
                        }
                    },
                }
            } else {
                push_char(&mut text, c);
            }
        }
    }

    /// Reads a number literal: an optional `-`, at least one digit, an
    /// optional fraction, an optional exponent.  A literal whose integer
    /// part holds no digit does not match the grammar and is a diagnostic.
    #[verifier::loop_isolation(false)]
    #[verifier::rlimit(60)]
    fn parse_number(&mut self) -> (r: Result<JsonValue, String>)
        requires
            old(self).position <= old(self).input.len(),
        ensures
            final(self).input == old(self).input,
            final(self).position <= final(self).input.len(),
            old(self).position <= final(self).position,
            match sp_jnumber(old(self).input@, old(self).position as int) {
                Ok(p) => r is Ok && r->Ok_0@ == p.0 && final(self).position as int == p.1 && old(
                    self,
                ).position < final(self).position,
                Err(m) => r is Err && r->Err_0@ == m,
            },
    {
        let ghost s = self.input@;
        let ghost i0 = self.position as int;
        let mut number = String::new();
        if self.position < self.input.len() && self.input[self.position] == '-' {
            let c = self.input[self.position];
            self.position = self.position + 1;
            push_char(&mut number, c);
        }
        let ghost p1 = self.position as int;
        proof {
            assert(number@ =~= s.subrange(i0, p1));
        }
        let mut has_int = false;
        while self.position < self.input.len() && is_digit_char(self.input[self.position])
            invariant
                self.input == old(self).input,
                p1 <= self.position <= self.input.len(),
                number@ == s.subrange(i0, self.position as int),
                digits_end(s, p1) == digits_end(s, self.position as int),
                has_int == (self.position > p1),
            decreases self.input.len() - self.position,
        {
            let c = self.input[self.position];
            self.position = self.position + 1;
            push_char(&mut number, c);
            has_int = true;
            proof {
                assert(number@ =~= s.subrange(i0, self.position as int));
            }
        }
        let ghost p2 = self.position as int;
        if self.position < self.input.len() && self.input[self.position] == '.' {
            let c = self.input[self.position];
            self.position = self.position + 1;
            push_char(&mut number, c);
            proof {
                assert(number@ =~= s.subrange(i0, self.position as int));
            }
            let mut has_digit = false;
            while self.position < self.input.len() && is_digit_char(self.input[self.position])
                invariant
                    self.input == old(self).input,
                    p2 + 1 <= self.position <= self.input.len(),
                    number@ == s.subrange(i0, self.position as int),
                    digits_end(s, p2 + 1) == digits_end(s, self.position as int),
                    has_digit == (self.position > p2 + 1),
                decreases self.input.len() - self.position,
            {
                let c2 = self.input[self.position];
                self.position = self.position + 1;
                push_char(&mut number, c2);
                has_digit = true;
                proof {
                    assert(number@ =~= s.subrange(i0, self.position as int));
                }
            }
            if !has_digit {
                return Err(String::from_str("Expected digit after decimal point"));
            }
        }
        let ghost p3 = self.position as int;
        let has_expo = match self.peek_char() {
            Some(c) => c == 'e' || c == 'E',
            None => false,
        };
        if has_expo {
            let c = self.input[self.position];
            self.position = self.position + 1;
            push_char(&mut number, c);
            let take_sign = match self.peek_char() {
                Some(c2) => c2 == '+' || c2 == '-',
                None => false,
            };
            if take_sign {
                let c2 = self.input[self.position];
                self.position = self.position + 1;
                push_char(&mut number, c2);
            }
            let ghost q = self.position as int;
            proof {
                assert(number@ =~= s.subrange(i0, q));
            }
            let mut has_digit = false;
            while self.position < self.input.len() && is_digit_char(self.input[self.position])
                invariant
                    self.input == old(self).input,
                    q <= self.position <= self.input.len(),
                    number@ == s.subrange(i0, self.position as int),
                    digits_end(s, q) == digits_end(s, self.position as int),
                    has_digit == (self.position > q),
                decreases self.input.len() - self.position,
            {
                let c2 = self.input[self.position];
                self.position = self.position + 1;
                push_char(&mut number, c2);
                has_digit = true;
                proof {
                    assert(number@ =~= s.subrange(i0, self.position as int));
                }
            }
            if !has_digit {
                return Err(String::from_str("Expected digit after exponent"));
            }
        }
        if has_int {
            Ok(JsonValue::Number(number))
        } else {
            Err(String::from_str("Invalid number"))
        }
    }

    /// Reads an array; the `[` stands at the current position.
    #[verifier::loop_isolation(false)]
    fn parse_array(&mut self) -> (r: Result<JsonValue, String>)
        requires
            old(self).position < old(self).input.len(),
            old(self).input@[old(self).position as int] == '[',
        ensures
            final(self).input == old(self).input,
            final(self).position <= final(self).input.len(),
            old(self).position < final(self).position,
            match sp_jarray_items(old(self).input@, old(self).position + 1, Seq::empty()) {
                Ok(p) => r is Ok && r->Ok_0@ == p.0 && final(self).position as int == p.1,
                Err(m) => r is Err && r->Err_0@ == m,
            },
        decreases self.input.len() - self.position, 0int,
    {
        let ghost s = self.input@;
        self.next_char();
        let mut arr: Vec<JsonValue> = Vec::new();
        loop
            invariant
                self.input == old(self).input,
                old(self).position < self.position <= self.input.len(),
                sp_jarray_items(s, old(self).position + 1, Seq::empty()) == sp_jarray_items(
                    s,
                    self.position as int,
                    items_model_upto(arr, arr.len() as int),
                ),
            decreases self.input.len() - self.position,
        {
            let ghost p0 = self.position as int;
            let ghost acc0 = items_model_upto(arr, arr.len() as int);
            self.skip_whitespace();
            let ghost j = self.position as int;
            match self.peek_char() {
                Some(c) => {
                    if c == ']' {
                        self.next_char();
                        return Ok(JsonValue::Array(arr));
                    }
                    if arr.len() > 0 {
                        if c == ',' {
                            self.next_char();
                            self.skip_whitespace();
                            proof {
                                lemma_ws_end_stop(s, j + 1);
                                lemma_jvalue_ws(s, j + 1);
                            }
                        } else {
                            return Err(String::from_str("Expected comma"));
                        }
                    }
                },
                None => {
                    if arr.len() > 0 {
                        return Err(String::from_str("Expected comma"));
                    }
                },
            }
            let v = match self.parse_value() {
                Ok(v) => v,
                Err(e) => {
                    return Err(e);
                },
            };
            let ghost vm = v@;
            let ghost arr0 = arr;
            arr.push(v);
            proof {
                lemma_items_model(arr, arr.len() as int);
                lemma_items_model(arr0, arr0.len() as int);
                assert(items_model_upto(arr, arr.len() as int) =~= acc0.push(vm));
            }
        }
    }

    /// Reads an object; the `{` stands at the current position.
    #[verifier::loop_isolation(false)]
    #[verifier::rlimit(60)]
    fn parse_object(&mut self) -> (r: Result<JsonValue, String>)
        requires
            old(self).position < old(self).input.len(),
            old(self).input@[old(self).position as int] == '{',
        ensures
            final(self).input == old(self).input,
            final(self).position <= final(self).input.len(),
            old(self).position < final(self).position,
            match sp_jobject_items(old(self).input@, old(self).position + 1, Seq::empty()) {
                Ok(p) => r is Ok && r->Ok_0@ == p.0 && final(self).position as int == p.1,
                Err(m) => r is Err && r->Err_0@ == m,
            },
        decreases self.input.len() - self.position, 0int,
    {
        let ghost s = self.input@;
        self.next_char();
        let mut members: Vec<(String, JsonValue)> = Vec::new();
        loop
            invariant
                self.input == old(self).input,
                old(self).position < self.position <= self.input.len(),
                sp_jobject_items(s, old(self).position + 1, Seq::empty()) == sp_jobject_items(
                    s,
                    self.position as int,
                    members_model_upto(members, members.len() as int),
                ),
            decreases self.input.len() - self.position,
        {
            let ghost p0 = self.position as int;
            let ghost acc0 = members_model_upto(members, members.len() as int);
            self.skip_whitespace();
            let ghost j = self.position as int;
            match self.peek_char() {
                Some(c) => {
                    if c == '}' {
                        self.next_char();
                        return Ok(JsonValue::Object(members));
                    }
                    if members.len() > 0 {
                        if c == ',' {
                            self.next_char();
                            self.skip_whitespace();
                            proof {
                                lemma_ws_end_stop(s, j + 1);
                                lemma_jvalue_ws(s, j + 1);
                            }
                        } else {
                            return Err(String::from_str("Expected comma"));
                        }
                    }
                },
                None => {
                    if members.len() > 0 {
                        return Err(String::from_str("Expected comma"));
                    }
                },
            }
            let keyv = match self.parse_value() {
                Ok(v) => v,
                Err(e) => {
                    return Err(e);
                },
            };
            let key = match keyv {
                JsonValue::String(key) => key,
                _ => {
                    return Err(String::from_str("Expected string as object key"));
                },
            };
            self.skip_whitespace();
            match self.next_char() {
                Some(cc) => {
                    if cc != ':' {
                        return Err(String::from_str("Expected colon"));
                    }
                },
                None => {
                    return Err(String::from_str("Expected colon"));
                },
            }
            let v = match self.parse_value() {
                Ok(v) => v,
                Err(e) => {
                    return Err(e);
                },
            };
            let ghost acc1 = obj_insert(acc0, key@, v@);
            proof {
                lemma_find_key(acc0, key@);
                lemma_members_model(members, members.len() as int);
            }
            let n_members = members.len();
            let mut fi: usize = 0;
            while fi < n_members && !(members[fi].0 == key)
                invariant
                    n_members == members.len(),
                    0 <= fi <= n_members,
                    forall|q: int| 0 <= q < fi ==> acc0[q].0 != key@,
                decreases n_members - fi,
            {
                proof {
                    assert(acc0[fi as int] == (members[fi as int].0@, value_model(
                        members[fi as int].1,
                    )));
                }
                fi += 1;
            }
            if fi < n_members {
                proof {
                    assert(acc0[fi as int] == (members[fi as int].0@, value_model(
                        members[fi as int].1,
                    )));
                    assert(find_key(acc0, key@) == fi as int);
                }
                let stored = members[fi].0.clone();
                members[fi] = (stored, v);
                proof {
                    lemma_members_model(members, members.len() as int);
                    assert(members_model_upto(members, members.len() as int) =~= acc1);
                }
            } else {
                proof {
                    assert(find_key(acc0, key@) == -1) by {
                        if find_key(acc0, key@) >= 0 {
                            assert(acc0[find_key(acc0, key@)].0 == key@);
                        }
                    }
                }
                members.push((key, v));
                proof {
                    lemma_members_model(members, members.len() as int);
                    assert(members_model_upto(members, members.len() as int) =~= acc1);
                }
            }
        }
    }

    /// Reads one value, picked by its first non-whitespace character.
    fn parse_value(&mut self) -> (r: Result<JsonValue, String>)
        requires
            old(self).position <= old(self).input.len(),
        ensures
            final(self).input == old(self).input,
            final(self).position <= final(self).input.len(),
            old(self).position <= final(self).position,
            match sp_jvalue(old(self).input@, old(self).position as int) {
                Ok(p) => r is Ok && r->Ok_0@ == p.0 && final(self).position as int == p.1 && old(
                    self,
                ).position < final(self).position,
                Err(m) => r is Err && r->Err_0@ == m,
            },
        decreases self.input.len() - self.position, 1int,
    {
        self.skip_whitespace();
        match self.peek_char() {
            None => Err(String::from_str("Unexpected end of input")),
            Some(c) => {
                if c == 'n' {
                    self.parse_null()
                } else if c == 't' || c == 'f' {
                    self.parse_boolean()
                } else if c == '"' {
                    self.parse_string()
                } else if c == '[' {
                    self.parse_array()
                } else if c == '{' {
                    self.parse_object()
                } else if is_digit_char(c) || c == '-' {
                    self.parse_number()
                } else {
                    Err(msg_unexpected_char(c))
                }
            },
        }
    }

    /// Parses a whole JSON document: one value followed by nothing but
    /// whitespace.
    pub fn parse(&mut self) -> (r: Result<JsonValue, String>)
        requires
            old(self).position <= old(self).input.len(),
        ensures
            final(self).input == old(self).input,
            final(self).position <= final(self).input.len(),
            match sp_jvalue(old(self).input@, old(self).position as int) {
                Err(m) => r is Err && r->Err_0@ == m,
                Ok(p) => if ws_end(old(self).input@, p.1) < old(self).input@.len() {
                    r is Err && r->Err_0@ == "Unexpected characters after JSON value"@
                } else {
                    r is Ok && r->Ok_0@ == p.0
                },
            },
    {
        let value = match self.parse_value() {
            Ok(v) => v,
            Err(e) => {
                return Err(e);
            },
        };
        self.skip_whitespace();
        if self.position < self.input.len() {
            return Err(String::from_str("Unexpected characters after JSON value"));
        }
        Ok(value)
    }
}

/// Parses a complete JSON document from `input`.
pub fn parse_json(input: &str) -> (r: Result<JsonValue, String>)
    ensures
        match sp_parse_json(input@) {
            Ok(v) => r is Ok && r->Ok_0@ == v,
            Err(m) => r is Err && r->Err_0@ == m,
        },
{
    let mut p = JsonParser::new(input);
    p.parse()
}

} // verus!
