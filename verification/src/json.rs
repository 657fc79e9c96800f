//! A small JSON value, its reader and its writer.
//!
//! Objects keep their members in author order (a list of pairs, not a map), so a written object
//! reads the way it was written. Numbers are exact decimals (see [`crate::number`]).

use crate::number::{
    canonical, dec_digits, is_digit, lex_number, number_text, parse_lexeme, push_dec, trunc_i64, Number,
    MAX_TEXT,
};
use crate::text::{chars_of, string_of};
use crate::text::str_eq;
use vstd::prelude::*;

verus! {

broadcast use vstd::std_specs::vec::group_vec_axioms;

/// A JSON value.
#[derive(Debug)]
pub enum Json {
    Null,
    Bool(bool),
    Num(Number),
    Str(String),
    Arr(Vec<Json>),
    Obj(Vec<(String, Json)>),
}

/// What a JSON value denotes: strings as character sequences.
pub enum JsonV {
    Null,
    Bool(bool),
    Num(Number),
    Str(Seq<char>),
    Arr(Seq<JsonV>),
    Obj(Seq<(Seq<char>, JsonV)>),
}

pub open spec fn jview(j: Json) -> JsonV
    decreases j, 1int,
{
    match j {
        Json::Null => JsonV::Null,
        Json::Bool(b) => JsonV::Bool(b),
        Json::Num(n) => JsonV::Num(n),
        Json::Str(s) => JsonV::Str(s@),
        Json::Arr(a) => JsonV::Arr(arr_view(a@)),
        Json::Obj(o) => JsonV::Obj(obj_view(o@)),
    }
}

pub open spec fn arr_view(s: Seq<Json>) -> Seq<JsonV>
    decreases s, 0int,
{
    if s.len() == 0 {
        Seq::empty()
    } else {
        arr_view(s.subrange(0, s.len() - 1)).push(jview(s[s.len() - 1]))
    }
}

pub open spec fn obj_view(s: Seq<(String, Json)>) -> Seq<(Seq<char>, JsonV)>
    decreases s, 0int,
{
    if s.len() == 0 {
        Seq::empty()
    } else {
        obj_view(s.subrange(0, s.len() - 1)).push((s[s.len() - 1].0@, jview(s[s.len() - 1].1)))
    }
}

impl View for Json {
    type V = JsonV;

    open spec fn view(&self) -> JsonV {
        jview(*self)
    }
}

pub proof fn lemma_arr_view(s: Seq<Json>)
    ensures
        arr_view(s).len() == s.len(),
        forall|i: int| 0 <= i < s.len() ==> #[trigger] arr_view(s)[i] == jview(s[i]),
    decreases s.len(),
{
    if s.len() > 0 {
        lemma_arr_view(s.subrange(0, s.len() - 1));
    }
}

pub proof fn lemma_obj_view(s: Seq<(String, Json)>)
    ensures
        obj_view(s).len() == s.len(),
        forall|i: int|
            0 <= i < s.len() ==> #[trigger] obj_view(s)[i] == (s[i].0@, jview(s[i].1)),
    decreases s.len(),
{
    if s.len() > 0 {
        lemma_obj_view(s.subrange(0, s.len() - 1));
    }
}

// ---- reading fields ---------------------------------------------------------------------

/// The first member of `o` named `key`.
pub open spec fn member(o: Seq<(Seq<char>, JsonV)>, key: Seq<char>) -> Option<JsonV>
    decreases o.len(),
{
    if o.len() == 0 {
        None
    } else if o[0].0 == key {
        Some(o[0].1)
    } else {
        member(o.drop_first(), key)
    }
}

/// The member `key` of an object; `None` for a missing key or a non-object.
pub open spec fn jget(j: JsonV, key: Seq<char>) -> Option<JsonV> {
    match j {
        JsonV::Obj(o) => member(o, key),
        _ => None,
    }
}

pub open spec fn jstr(j: JsonV) -> Option<Seq<char>> {
    match j {
        JsonV::Str(s) => Some(s),
        _ => None,
    }
}

pub open spec fn jnum(j: JsonV) -> Option<Number> {
    match j {
        JsonV::Num(n) => Some(n),
        _ => None,
    }
}

pub open spec fn jbool(j: JsonV) -> Option<bool> {
    match j {
        JsonV::Bool(b) => Some(b),
        _ => None,
    }
}

pub open spec fn jarr(j: JsonV) -> Option<Seq<JsonV>> {
    match j {
        JsonV::Arr(a) => Some(a),
        _ => None,
    }
}

/// The string member `key`: `None` when absent or not a string.
pub open spec fn field_str(j: JsonV, key: Seq<char>) -> Option<Seq<char>> {
    match jget(j, key) {
        Some(v) => jstr(v),
        None => None,
    }
}

/// The number member `key`: `None` when absent or not a number.
pub open spec fn field_num(j: JsonV, key: Seq<char>) -> Option<Number> {
    match jget(j, key) {
        Some(v) => jnum(v),
        None => None,
    }
}

/// The number member `key` truncated to an integer: `None` when absent or not a number.
pub open spec fn field_int(j: JsonV, key: Seq<char>) -> Option<i64> {
    match field_num(j, key) {
        Some(n) => Some(trunc_i64(n) as i64),
        None => None,
    }
}

/// The boolean member `key`: `None` when absent or not a boolean.
pub open spec fn field_bool(j: JsonV, key: Seq<char>) -> Option<bool> {
    match jget(j, key) {
        Some(v) => jbool(v),
        None => None,
    }
}

/// The array member `key`: `None` when absent or not an array.
pub open spec fn field_arr(j: JsonV, key: Seq<char>) -> Option<Seq<JsonV>> {
    match jget(j, key) {
        Some(v) => jarr(v),
        None => None,
    }
}

/// Whether every number inside a value is canonical.
pub open spec fn wf_json(j: JsonV) -> bool
    decreases j,
{
    match j {
        JsonV::Num(n) => canonical(n),
        JsonV::Arr(a) => forall|i: int| 0 <= i < a.len() ==> wf_json(#[trigger] a[i]),
        JsonV::Obj(o) => forall|i: int| 0 <= i < o.len() ==> wf_json(#[trigger] o[i].1),
        _ => true,
    }
}

impl Json {
    /// A copy of this value.
    #[verifier::loop_isolation(false)]
    pub fn deep_clone(&self) -> (r: Json)
        ensures
            r@ == self@,
        decreases self,
    {
        match self {
            Json::Null => Json::Null,
            Json::Bool(b) => Json::Bool(*b),
            Json::Num(n) => Json::Num(*n),
            Json::Str(s) => Json::Str(s.clone()),
            Json::Arr(a) => {
                let mut out: Vec<Json> = Vec::new();
                let mut i: usize = 0;
                assert(out@ =~= a@.take(0));
                while i < a.len()
                    invariant
                        i <= a.len(),
                        arr_view(out@) == arr_view(a@.take(i as int)),
                    decreases a.len() - i,
                {
                    proof {
                        assert(decreases_to!(*self => *a));
                        assert(decreases_to!(*a => a@));
                        assert(decreases_to!(a@ => a@[i as int]));
                    }
                    let c = a[i].deep_clone();
                    let ghost prev = out@;
                    out.push(c);
                    proof {
                        assert(out@.subrange(0, out@.len() - 1) =~= prev);
                        assert(a@.take(i + 1).subrange(0, i as int) =~= a@.take(i as int));
                    }
                    i = i + 1;
                }
                assert(a@.take(a.len() as int) =~= a@);
                Json::Arr(out)
            },
            Json::Obj(o) => {
                let mut out: Vec<(String, Json)> = Vec::new();
                let mut i: usize = 0;
                assert(out@ =~= o@.take(0));
                while i < o.len()
                    invariant
                        i <= o.len(),
                        obj_view(out@) == obj_view(o@.take(i as int)),
                    decreases o.len() - i,
                {
                    proof {
                        assert(decreases_to!(*self => *o));
                        assert(decreases_to!(*o => o@));
                        assert(decreases_to!(o@ => o@[i as int]));
                        assert(decreases_to!(o@[i as int] => o@[i as int].1));
                    }
                    let c = o[i].1.deep_clone();
                    let k = o[i].0.clone();
                    let ghost prev = out@;
                    out.push((k, c));
                    proof {
                        assert(out@.subrange(0, out@.len() - 1) =~= prev);
                        assert(o@.take(i + 1).subrange(0, i as int) =~= o@.take(i as int));
                    }
                    i = i + 1;
                }
                assert(o@.take(o.len() as int) =~= o@);
                Json::Obj(out)
            },
        }
    }

    /// The string this value holds, if it is one.
    pub fn as_str(&self) -> (r: Option<&str>)
        ensures
            r matches Some(s) ==> jstr(self@) == Some(s@),
            r is None ==> jstr(self@) is None,
    {
        match self {
            Json::Str(s) => Some(s.as_str()),
            _ => None,
        }
    }

    /// The number this value holds, if it is one.
    pub fn as_num(&self) -> (r: Option<Number>)
        ensures
            r == jnum(self@),
    {
        match self {
            Json::Num(n) => Some(*n),
            _ => None,
        }
    }

    /// The boolean this value holds, if it is one.
    pub fn as_bool(&self) -> (r: Option<bool>)
        ensures
            r == jbool(self@),
    {
        match self {
            Json::Bool(b) => Some(*b),
            _ => None,
        }
    }

    /// The elements of this value, if it is an array.
    pub fn as_array(&self) -> (r: Option<&Vec<Json>>)
        ensures
            r matches Some(a) ==> jarr(self@) == Some(arr_view(a@)),
            r is None ==> jarr(self@) is None,
    {
        match self {
            Json::Arr(a) => Some(a),
            _ => None,
        }
    }

    /// The first member named `key`, if this value is an object that has one.
    #[verifier::loop_isolation(false)]
    pub fn get(&self, key: &str) -> (r: Option<&Json>)
        ensures
            r matches Some(v) ==> jget(self@, key@) == Some(v@),
            r is None ==> jget(self@, key@) is None,
    {
        match self {
            Json::Obj(o) => {
                let mut i: usize = 0;
                proof {
                    lemma_obj_view(o@);
                    assert(obj_view(o@).skip(0) =~= obj_view(o@));
                }
                while i < o.len()
                    invariant
                        i <= o.len(),
                        obj_view(o@).len() == o.len(),
                        forall|q: int|
                            0 <= q < o.len() ==> #[trigger] obj_view(o@)[q] == (
                                o@[q].0@,
                                jview(o@[q].1),
                            ),
                        member(obj_view(o@), key@) == member(obj_view(o@).skip(i as int), key@),
                    decreases o.len() - i,
                {
                    let ghost rest = obj_view(o@).skip(i as int);
                    assert(rest[0] == obj_view(o@)[i as int]);
                    if str_eq(o[i].0.as_str(), key) {
                        return Some(&o[i].1);
                    }
                    assert(rest.drop_first() =~= obj_view(o@).skip(i + 1));
                    i = i + 1;
                }
                None
            },
            _ => None,
        }
    }

    /// The string member `key`.
    pub fn get_str(&self, key: &str) -> (r: Option<&str>)
        ensures
            r matches Some(s) ==> field_str(self@, key@) == Some(s@),
            r is None ==> field_str(self@, key@) is None,
    {
        match self.get(key) {
            Some(v) => v.as_str(),
            None => None,
        }
    }

    /// The number member `key`.
    pub fn get_num(&self, key: &str) -> (r: Option<Number>)
        ensures
            r == field_num(self@, key@),
    {
        match self.get(key) {
            Some(v) => v.as_num(),
            None => None,
        }
    }

    /// The number member `key`, truncated to an integer.
    pub fn get_i64(&self, key: &str) -> (r: Option<i64>)
        ensures
            r == field_int(self@, key@),
    {
        match self.get_num(key) {
            Some(n) => Some(n.to_i64()),
            None => None,
        }
    }

    /// The boolean member `key`.
    pub fn get_bool(&self, key: &str) -> (r: Option<bool>)
        ensures
            r == field_bool(self@, key@),
    {
        match self.get(key) {
            Some(v) => v.as_bool(),
            None => None,
        }
    }

    /// The array member `key`.
    pub fn get_array(&self, key: &str) -> (r: Option<&Vec<Json>>)
        ensures
            r matches Some(a) ==> field_arr(self@, key@) == Some(arr_view(a@)),
            r is None ==> field_arr(self@, key@) is None,
    {
        match self.get(key) {
            Some(v) => v.as_array(),
            None => None,
        }
    }
}


// ---- reading ----------------------------------------------------------------------------

/// JSON insignificant white space.
pub open spec fn is_json_ws(ch: char) -> bool {
    ch == ' ' || ch == '\n' || ch == '\r' || ch == '\t'
}

/// The length of the run of JSON white space that starts `s`.
pub open spec fn ws_run(s: Seq<char>) -> nat
    decreases s.len(),
{
    if s.len() > 0 && is_json_ws(s[0]) {
        1 + ws_run(s.drop_first())
    } else {
        0
    }
}

/// The first position at or after `i` that is not white space.
pub open spec fn ws_end(c: Seq<char>, i: int) -> int {
    i + ws_run(c.skip(i))
}

/// A character a number literal is scanned over.
pub open spec fn is_num_char(ch: char) -> bool {
    is_digit(ch) || ch == '-' || ch == '+' || ch == '.' || ch == 'e' || ch == 'E'
}

/// The length of the run of number characters that starts `s`.
pub open spec fn num_run(s: Seq<char>) -> nat
    decreases s.len(),
{
    if s.len() > 0 && is_num_char(s[0]) {
        1 + num_run(s.drop_first())
    } else {
        0
    }
}

/// The value of a hexadecimal digit, either case.
pub open spec fn hex_val(ch: char) -> Option<u32> {
    if '0' <= ch && ch <= '9' {
        Some((ch as u32 - '0' as u32) as u32)
    } else if 'a' <= ch && ch <= 'f' {
        Some((ch as u32 - 'a' as u32 + 10) as u32)
    } else if 'A' <= ch && ch <= 'F' {
        Some((ch as u32 - 'A' as u32 + 10) as u32)
    } else {
        None
    }
}

/// The code unit of the four hex digits at `j` (`k` of them read so far into `acc`).
pub open spec fn p_hex(c: Seq<char>, j: int, k: int, acc: u32) -> Result<u32, Seq<char>>
    decreases 4 - k,
{
    if k >= 4 {
        Ok(acc)
    } else if j + k < 0 || j + k >= c.len() {
        Err("short \\u escape"@)
    } else {
        match hex_val(c[j + k]) {
            None => Err("bad hex digit"@),
            Some(d) => p_hex(c, j, k + 1, (acc * 16 + d) as u32),
        }
    }
}

/// Whether a code point is a Unicode scalar value (what `char::from_u32` accepts).
pub open spec fn is_scalar(cp: u32) -> bool {
    cp < 0xD800 || (0xE000 <= cp && cp <= 0x10FFFF)
}

/// The character of a code point, or nothing when it is not a scalar value.
pub open spec fn scalar_text(cp: u32) -> Seq<char> {
    if is_scalar(cp) {
        seq![cp as char]
    } else {
        Seq::empty()
    }
}

/// The code point a UTF-16 surrogate pair `hi lo` combines to.
pub open spec fn combine_surrogates(hi: u32, lo: u32) -> u32 {
    (0x10000 + (hi - 0xD800) * 1024 + lo - 0xDC00) as u32
}

/// The character a one-character escape `\e` stands for.
pub open spec fn unescape(e: char) -> char {
    if e == 'n' {
        '\n'
    } else if e == 't' {
        '\t'
    } else if e == 'r' {
        '\r'
    } else if e == 'b' {
        '\u{8}'
    } else if e == 'f' {
        '\u{c}'
    } else {
        e
    }
}

/// The rest of a string literal from `j` (its text so far `acc`): the text and the position past
/// the closing quote. A `\u` escape that names no character adds nothing.
pub open spec fn p_str(c: Seq<char>, j: int, acc: Seq<char>) -> Result<(Seq<char>, int), Seq<char>>
    decreases c.len() - j,
{
    if j < 0 || j >= c.len() {
        Err("unterminated string"@)
    } else if c[j] == '"' {
        Ok((acc, j + 1))
    } else if c[j] == '\\' {
        if j + 1 >= c.len() {
            Err("unterminated escape"@)
        } else if c[j + 1] == 'u' {
            match p_hex(c, j + 2, 0, 0) {
                Err(m) => Err(m),
                Ok(cp) => {
                    proof {
                        lemma_p_hex(c, j + 2, 0, 0);
                    }
                    let k = j + 6;
                    if 0xD800 <= cp && cp <= 0xDBFF {
                        if k + 1 < c.len() && c[k] == '\\' && c[k + 1] == 'u' {
                            match p_hex(c, k + 2, 0, 0) {
                                Err(m) => Err(m),
                                Ok(lo) => {
                                    proof {
                                        lemma_p_hex(c, k + 2, 0, 0);
                                    }
                                    p_str(c, k + 6, acc + scalar_text(combine_surrogates(cp, lo)))
                                },
                            }
                        } else {
                            p_str(c, k, acc)
                        }
                    } else {
                        p_str(c, k, acc + scalar_text(cp))
                    }
                },
            }
        } else {
            p_str(c, j + 2, acc.push(unescape(c[j + 1])))
        }
    } else {
        p_str(c, j + 1, acc.push(c[j]))
    }
}

/// Whether `w` is spelled at `j`.
pub open spec fn word_at(c: Seq<char>, j: int, w: Seq<char>) -> bool {
    0 <= j && j + w.len() <= c.len() && c.subrange(j, j + w.len()) == w
}

pub open spec fn err_unexpected(j: int) -> Seq<char> {
    "unexpected token at position "@ + dec_digits(j as nat)
}

pub open spec fn err_expected(w: Seq<char>) -> Seq<char> {
    "expected `"@ + w + "`"@
}

pub open spec fn err_bad_number(l: Seq<char>) -> Seq<char> {
    "bad number `"@ + l + "`"@
}

/// A number literal at `j`: the longest run of number characters, read as a decimal.
pub open spec fn p_number(c: Seq<char>, j: int) -> Result<(JsonV, int), Seq<char>> {
    let e = j + num_run(c.skip(j));
    let l = c.subrange(j, e);
    match lex_number(l) {
        Some(n) => Ok((JsonV::Num(n), e)),
        None => Err(err_bad_number(l)),
    }
}

/// A value at `i` (after white space): the value and the position past it.
pub open spec fn p_value(c: Seq<char>, i: int) -> Result<(JsonV, int), Seq<char>>
    decreases c.len() - i, 2int,
{
    let j = ws_end(c, i);
    if i < 0 || i > c.len() {
        Err(err_unexpected(i))
    } else {
        proof {
            lemma_ws_run(c.skip(i));
        }
        if j >= c.len() {
            Err(err_unexpected(j))
        } else if c[j] == '{' {
            p_object(c, j)
        } else if c[j] == '[' {
            p_array(c, j)
        } else if c[j] == '"' {
            match p_str(c, j + 1, Seq::empty()) {
                Ok((s, k)) => Ok((JsonV::Str(s), k)),
                Err(m) => Err(m),
            }
        } else if c[j] == 't' {
            if word_at(c, j, "true"@) {
                Ok((JsonV::Bool(true), j + 4))
            } else {
                Err(err_expected("true"@))
            }
        } else if c[j] == 'f' {
            if word_at(c, j, "false"@) {
                Ok((JsonV::Bool(false), j + 5))
            } else {
                Err(err_expected("false"@))
            }
        } else if c[j] == 'n' {
            if word_at(c, j, "null"@) {
                Ok((JsonV::Null, j + 4))
            } else {
                Err(err_expected("null"@))
            }
        } else if c[j] == '-' || is_digit(c[j]) {
            p_number(c, j)
        } else {
            Err(err_unexpected(j))
        }
    }
}

/// An array whose `[` is at `j`.
pub open spec fn p_array(c: Seq<char>, j: int) -> Result<(JsonV, int), Seq<char>>
    decreases c.len() - j, 1int,
{
    if j < 0 || j >= c.len() {
        Err(seq![])
    } else {
        proof {
            lemma_ws_run(c.skip(j + 1));
        }
        let k = ws_end(c, j + 1);
        if k < c.len() && c[k] == ']' {
            Ok((JsonV::Arr(Seq::empty()), k + 1))
        } else {
            p_elems(c, k, Seq::empty())
        }
    }
}

/// The elements of an array from `k` on (those before it in `acc`), through its `]`.
pub open spec fn p_elems(c: Seq<char>, k: int, acc: Seq<JsonV>) -> Result<(JsonV, int), Seq<char>>
    decreases c.len() - k, 3int,
{
    if k < 0 || k > c.len() {
        Err(seq![])
    } else {
        match p_value(c, k) {
            Err(m) => Err(m),
            Ok((v, k1)) => {
                if k1 < k {
                    Err(seq![])
                } else {
                    let k2 = ws_end(c, k1);
                    if k2 < c.len() && c[k2] == ',' {
                        p_elems(c, k2 + 1, acc.push(v))
                    } else if k2 < c.len() && c[k2] == ']' {
                        Ok((JsonV::Arr(acc.push(v)), k2 + 1))
                    } else {
                        Err("expected `,` or `]` in array"@)
                    }
                }
            },
        }
    }
}

/// An object whose `{` is at `j`.
pub open spec fn p_object(c: Seq<char>, j: int) -> Result<(JsonV, int), Seq<char>>
    decreases c.len() - j, 1int,
{
    if j < 0 || j >= c.len() {
        Err(seq![])
    } else {
        proof {
            lemma_ws_run(c.skip(j + 1));
        }
        let k = ws_end(c, j + 1);
        if k < c.len() && c[k] == '}' {
            Ok((JsonV::Obj(Seq::empty()), k + 1))
        } else {
            p_members(c, j + 1, Seq::empty())
        }
    }
}

/// The members of an object from `j` on (those before it in `acc`), through its `}`.
pub open spec fn p_members(c: Seq<char>, j: int, acc: Seq<(Seq<char>, JsonV)>) -> Result<
    (JsonV, int),
    Seq<char>,
>
    decreases c.len() - j, 3int,
{
    if j < 0 || j > c.len() {
        Err(seq![])
    } else {
        proof {
            lemma_ws_run(c.skip(j));
        }
        let k = ws_end(c, j);
        if !(k < c.len() && c[k] == '"') {
            Err("expected string key in object"@)
        } else {
            match p_str(c, k + 1, Seq::empty()) {
                Err(m) => Err(m),
                Ok((key, k2)) => {
                    proof {
                        lemma_p_str(c, k + 1, Seq::empty());
                    }
                    let k3 = ws_end(c, k2);
                    if !(k3 < c.len() && c[k3] == ':') {
                        Err("expected `:` after key"@)
                    } else {
                        match p_value(c, k3 + 1) {
                            Err(m) => Err(m),
                            Ok((v, k4)) => {
                                if k4 < k3 + 1 {
                                    Err(seq![])
                                } else {
                                    let k5 = ws_end(c, k4);
                                    if k5 < c.len() && c[k5] == ',' {
                                        p_members(c, k5 + 1, acc.push((key, v)))
                                    } else if k5 < c.len() && c[k5] == '}' {
                                        Ok((JsonV::Obj(acc.push((key, v))), k5 + 1))
                                    } else {
                                        Err("expected `,` or `}` in object"@)
                                    }
                                }
                            },
                        }
                    }
                },
            }
        }
    }
}

/// What a JSON text denotes: its one value, with nothing but white space around it, or the
/// reason it is not one. Anything else after the value is refused at its position, as a
/// truncated value is.
pub open spec fn parse_spec(c: Seq<char>) -> Result<JsonV, Seq<char>> {
    match p_value(c, 0) {
        Ok((v, k)) => if ws_end(c, k) == c.len() {
            Ok(v)
        } else {
            Err(err_unexpected(ws_end(c, k)))
        },
        Err(m) => Err(m),
    }
}

pub proof fn lemma_ws_run(s: Seq<char>)
    ensures
        ws_run(s) <= s.len(),
        forall|k: int| 0 <= k < ws_run(s) ==> is_json_ws(#[trigger] s[k]),
        ws_run(s) < s.len() ==> !is_json_ws(s[ws_run(s) as int]),
    decreases s.len(),
{
    if s.len() > 0 && is_json_ws(s[0]) {
        lemma_ws_run(s.drop_first());
        assert forall|k: int| 0 <= k < ws_run(s) implies is_json_ws(#[trigger] s[k]) by {
            if k > 0 {
                assert(s[k] == s.drop_first()[k - 1]);
            }
        }
    }
}

proof fn lemma_num_run(s: Seq<char>)
    ensures
        num_run(s) <= s.len(),
        forall|k: int| 0 <= k < num_run(s) ==> is_num_char(#[trigger] s[k]),
        num_run(s) < s.len() ==> !is_num_char(s[num_run(s) as int]),
    decreases s.len(),
{
    if s.len() > 0 && is_num_char(s[0]) {
        lemma_num_run(s.drop_first());
        assert forall|k: int| 0 <= k < num_run(s) implies is_num_char(#[trigger] s[k]) by {
            if k > 0 {
                assert(s[k] == s.drop_first()[k - 1]);
            }
        }
    }
}

pub proof fn lemma_p_hex(c: Seq<char>, j: int, k: int, acc: u32)
    requires
        0 <= k <= 4,
        acc < pow16(k),
        k > 0 ==> 0 <= j && j + k - 1 < c.len(),
    ensures
        p_hex(c, j, k, acc) matches Ok(v) ==> 0 <= j && j + 3 < c.len() && v <= 0xFFFF,
    decreases 4 - k,
{
    if k < 4 && 0 <= j + k < c.len() {
        if let Some(d) = hex_val(c[j + k]) {
            assert(acc * 16 + d < pow16(k + 1));
            lemma_p_hex(c, j, k + 1, (acc * 16 + d) as u32);
        }
    }
}

/// `16^k` for the four digits of a `\u` escape.
pub open spec fn pow16(k: int) -> int {
    if k <= 0 {
        1
    } else if k == 1 {
        16
    } else if k == 2 {
        256
    } else if k == 3 {
        4096
    } else {
        65536
    }
}

pub proof fn lemma_p_str(c: Seq<char>, j: int, acc: Seq<char>)
    ensures
        p_str(c, j, acc) matches Ok((_, e)) ==> j < e <= c.len(),
    decreases c.len() - j,
{
    if 0 <= j < c.len() && c[j] != '"' {
        if c[j] == '\\' {
            if j + 1 < c.len() {
                if c[j + 1] == 'u' {
                    lemma_p_hex(c, j + 2, 0, 0);
                    if let Ok(cp) = p_hex(c, j + 2, 0, 0) {
                        let k = j + 6;
                        if 0xD800 <= cp && cp <= 0xDBFF {
                            if k + 1 < c.len() && c[k] == '\\' && c[k + 1] == 'u' {
                                lemma_p_hex(c, k + 2, 0, 0);
                                if let Ok(lo) = p_hex(c, k + 2, 0, 0) {
                                    lemma_p_str(
                                        c,
                                        k + 6,
                                        acc + scalar_text(combine_surrogates(cp, lo)),
                                    );
                                }
                            } else {
                                lemma_p_str(c, k, acc);
                            }
                        } else {
                            lemma_p_str(c, k, acc + scalar_text(cp));
                        }
                    }
                } else {
                    lemma_p_str(c, j + 2, acc.push(unescape(c[j + 1])));
                }
            }
        } else {
            lemma_p_str(c, j + 1, acc.push(c[j]));
        }
    }
}


/// What a reader's result denotes.
pub open spec fn read_view(r: Result<(Json, usize), String>) -> Result<(JsonV, int), Seq<char>> {
    match r {
        Ok((v, e)) => Ok((v@, e as int)),
        Err(m) => Err(m@),
    }
}

fn skip_ws(c: &Vec<char>, i: usize) -> (j: usize)
    requires
        i <= c.len(),
    ensures
        j == ws_end(c@, i as int),
        i <= j <= c.len(),
{
    proof {
        lemma_ws_run(c@.skip(i as int));
    }
    let mut j = i;
    while j < c.len() && (c[j] == ' ' || c[j] == '\n' || c[j] == '\r' || c[j] == '\t')
        invariant
            i <= j <= c.len(),
            ws_end(c@, i as int) == ws_end(c@, j as int),
        decreases c.len() - j,
    {
        assert(c@.skip(j as int)[0] == c@[j as int]);
        assert(c@.skip(j as int).drop_first() =~= c@.skip(j + 1));
        j = j + 1;
    }
    if j < c.len() {
        assert(c@.skip(j as int)[0] == c@[j as int]);
    } else {
        assert(c@.skip(j as int).len() == 0);
    }
    j
}

fn append_str(v: &mut Vec<char>, s: &str)
    ensures
        final(v)@ == old(v)@ + s@,
{
    let mut w = chars_of(s);
    v.append(&mut w);
}

fn msg_unexpected(j: usize) -> (m: String)
    ensures
        m@ == err_unexpected(j as int),
{
    let mut v = chars_of("unexpected token at position ");
    push_dec(j as u64, &mut v);
    string_of(&v)
}

fn msg_expected(w: &str) -> (m: String)
    ensures
        m@ == err_expected(w@),
{
    let mut v = chars_of("expected `");
    append_str(&mut v, w);
    append_str(&mut v, "`");
    string_of(&v)
}

/// `char::from_u32`: the character of a code point; `None` for a surrogate or a value past
/// `0x10FFFF`.
#[verifier::external_body]
fn char_from_u32(cp: u32) -> (r: Option<char>)
    ensures
        r == (if is_scalar(cp) {
            Some(cp as char)
        } else {
            None
        }),
{
    char::from_u32(cp)
}

fn hex_digit(ch: char) -> (r: Option<u32>)
    ensures
        r == hex_val(ch),
{
    if '0' <= ch && ch <= '9' {
        Some(ch as u32 - '0' as u32)
    } else if 'a' <= ch && ch <= 'f' {
        Some(ch as u32 - 'a' as u32 + 10)
    } else if 'A' <= ch && ch <= 'F' {
        Some(ch as u32 - 'A' as u32 + 10)
    } else {
        None
    }
}

fn hex4(c: &Vec<char>, j: usize) -> (r: Result<u32, String>)
    requires
        j <= c.len(),
    ensures
        match (r, p_hex(c@, j as int, 0, 0)) {
            (Ok(v), Ok(w)) => v == w,
            (Err(m), Err(e)) => m@ == e,
            _ => false,
        },
{
    let mut v: u32 = 0;
    let mut k: usize = 0;
    while k < 4
        invariant
            k <= 4,
            j <= c.len(),
            v < pow16(k as int),
            p_hex(c@, j as int, 0, 0) == p_hex(c@, j as int, k as int, v),
        decreases 4 - k,
    {
        if k >= c.len() - j {
            return Err("short \\u escape".to_string());
        }
        match hex_digit(c[j + k]) {
            None => {
                return Err("bad hex digit".to_string());
            },
            Some(d) => {
                assert(v * 16 + d < pow16(k + 1));
                v = v * 16 + d;
            },
        }
        k = k + 1;
    }
    Ok(v)
}

fn unescape_char(e: char) -> (r: char)
    ensures
        r == unescape(e),
{
    if e == 'n' {
        '\n'
    } else if e == 't' {
        '\t'
    } else if e == 'r' {
        '\r'
    } else if e == 'b' {
        '\u{8}'
    } else if e == 'f' {
        '\u{c}'
    } else {
        e
    }
}

/// A string literal whose text starts at `j0` (just past its opening quote).
fn string_body(c: &Vec<char>, j0: usize) -> (r: Result<(String, usize), String>)
    requires
        j0 <= c.len(),
    ensures
        match r {
            Ok((s, e)) => p_str(c@, j0 as int, Seq::empty()) == Ok::<(Seq<char>, int), Seq<char>>(
                (s@, e as int),
            ),
            Err(m) => p_str(c@, j0 as int, Seq::empty()) == Err::<(Seq<char>, int), Seq<char>>(
                m@,
            ),
        },
{
    let mut out: Vec<char> = Vec::new();
    let mut j = j0;
    loop
        invariant
            j0 <= j <= c.len(),
            p_str(c@, j0 as int, Seq::empty()) == p_str(c@, j as int, out@),
        decreases c.len() - j,
    {
        if j >= c.len() {
            return Err("unterminated string".to_string());
        }
        let ch = c[j];
        if ch == '"' {
            return Ok((string_of(&out), j + 1));
        }
        if ch == '\\' {
            if j + 1 >= c.len() {
                return Err("unterminated escape".to_string());
            }
            let e = c[j + 1];
            if e == 'u' {
                let cp = match hex4(c, j + 2) {
                    Ok(v) => v,
                    Err(m) => {
                        return Err(m);
                    },
                };
                proof {
                    lemma_p_hex(c@, j + 2, 0, 0);
                }
                let k = j + 6;
                if 0xD800 <= cp && cp <= 0xDBFF {
                    if c.len() - k > 1 && c[k] == '\\' && c[k + 1] == 'u' {
                        let lo = match hex4(c, k + 2) {
                            Ok(v) => v,
                            Err(m) => {
                                return Err(m);
                            },
                        };
                        proof {
                            lemma_p_hex(c@, k + 2, 0, 0);
                        }
                        let combined = (0x10000u32 + (cp - 0xD800) * 1024 + lo) - 0xDC00;
                        let ghost before = out@;
                        if let Some(x) = char_from_u32(combined) {
                            out.push(x);
                        }
                        assert(out@ =~= before + scalar_text(combine_surrogates(cp, lo)));
                        j = k + 6;
                    } else {
                        j = k;
                    }
                } else {
                    let ghost before = out@;
                    if let Some(x) = char_from_u32(cp) {
                        out.push(x);
                    }
                    assert(out@ =~= before + scalar_text(cp));
                    j = k;
                }
            } else {
                out.push(unescape_char(e));
                j = j + 2;
            }
        } else {
            out.push(ch);
            j = j + 1;
        }
    }
}

fn word_at_exec(c: &Vec<char>, j: usize, w: &str) -> (b: bool)
    requires
        j <= c.len(),
    ensures
        b == word_at(c@, j as int, w@),
{
    let wv = chars_of(w);
    if wv.len() > c.len() - j {
        return false;
    }
    let mut k: usize = 0;
    while k < wv.len()
        invariant
            k <= wv.len(),
            j + wv.len() <= c.len(),
            wv@ == w@,
            forall|q: int| 0 <= q < k ==> c@[j + q] == #[trigger] wv@[q],
        decreases wv.len() - k,
    {
        if c[j + k] != wv[k] {
            assert(c@.subrange(j as int, j + wv.len())[k as int] != w@[k as int]);
            return false;
        }
        k = k + 1;
    }
    assert(c@.subrange(j as int, j + wv.len()) =~= w@);
    true
}

fn number_at(c: &Vec<char>, j: usize) -> (r: Result<(Json, usize), String>)
    requires
        j <= c.len(),
        c.len() < MAX_TEXT,
    ensures
        read_view(r) == p_number(c@, j as int),
{
    proof {
        lemma_num_run(c@.skip(j as int));
    }
    let mut e = j;
    while e < c.len() && (crate::number::is_ascii_digit(c[e]) || c[e] == '-' || c[e] == '+'
        || c[e] == '.' || c[e] == 'e' || c[e] == 'E')
        invariant
            j <= e <= c.len(),
            j + num_run(c@.skip(j as int)) == e + num_run(c@.skip(e as int)),
        decreases c.len() - e,
    {
        assert(c@.skip(e as int)[0] == c@[e as int]);
        assert(c@.skip(e as int).drop_first() =~= c@.skip(e + 1));
        e = e + 1;
    }
    if e < c.len() {
        assert(c@.skip(e as int)[0] == c@[e as int]);
    } else {
        assert(c@.skip(e as int).len() == 0);
    }
    match parse_lexeme(c, j, e) {
        Some(n) => Ok((Json::Num(n), e)),
        None => {
            let mut v = chars_of("bad number `");
            let mut k = j;
            let ghost start = v@;
            while k < e
                invariant
                    j <= k <= e <= c.len(),
                    v@ == start + c@.subrange(j as int, k as int),
                decreases e - k,
            {
                v.push(c[k]);
                k = k + 1;
                assert(v@ =~= start + c@.subrange(j as int, k as int));
            }
            append_str(&mut v, "`");
            Err(string_of(&v))
        },
    }
}

/// A value at `i` (after white space), and the position past it.
fn value(c: &Vec<char>, i: usize) -> (r: Result<(Json, usize), String>)
    requires
        i <= c.len(),
        c.len() < MAX_TEXT,
    ensures
        read_view(r) == p_value(c@, i as int),
        r matches Ok((_, e)) ==> i < e <= c.len(),
    decreases c.len() - i, 2int,
{
    let j = skip_ws(c, i);
    if j >= c.len() {
        return Err(msg_unexpected(j));
    }
    let ch = c[j];
    if ch == '{' {
        object(c, j)
    } else if ch == '[' {
        array(c, j)
    } else if ch == '"' {
        proof {
            lemma_p_str(c@, j + 1, Seq::empty());
        }
        match string_body(c, j + 1) {
            Ok((s, k)) => Ok((Json::Str(s), k)),
            Err(m) => Err(m),
        }
    } else if ch == 't' {
        if word_at_exec(c, j, "true") {
            proof {
                reveal_strlit("true");
            }
            Ok((Json::Bool(true), j + 4))
        } else {
            Err(msg_expected("true"))
        }
    } else if ch == 'f' {
        if word_at_exec(c, j, "false") {
            proof {
                reveal_strlit("false");
            }
            Ok((Json::Bool(false), j + 5))
        } else {
            Err(msg_expected("false"))
        }
    } else if ch == 'n' {
        if word_at_exec(c, j, "null") {
            proof {
                reveal_strlit("null");
            }
            Ok((Json::Null, j + 4))
        } else {
            Err(msg_expected("null"))
        }
    } else if ch == '-' || crate::number::is_ascii_digit(ch) {
        proof {
            lemma_num_run(c@.skip(j as int));
            assert(c@.skip(j as int)[0] == c@[j as int]);
        }
        number_at(c, j)
    } else {
        Err(msg_unexpected(j))
    }
}

/// An array whose `[` is at `j`.
fn array(c: &Vec<char>, j: usize) -> (r: Result<(Json, usize), String>)
    requires
        j < c.len(),
        c.len() < MAX_TEXT,
    ensures
        read_view(r) == p_array(c@, j as int),
        r matches Ok((_, e)) ==> j < e <= c.len(),
    decreases c.len() - j, 1int,
{
    let k0 = skip_ws(c, j + 1);
    if k0 < c.len() && c[k0] == ']' {
        let out: Vec<Json> = Vec::new();
        assert(arr_view(out@) =~= Seq::<JsonV>::empty());
        return Ok((Json::Arr(out), k0 + 1));
    }
    let mut out: Vec<Json> = Vec::new();
    let mut k = k0;
    assert(arr_view(out@) =~= Seq::<JsonV>::empty());
    loop
        invariant
            j < k <= c.len(),
            c.len() < MAX_TEXT,
            p_array(c@, j as int) == p_elems(c@, k as int, arr_view(out@)),
        decreases c.len() - k,
    {
        let (v, k1) = match value(c, k) {
            Ok(x) => x,
            Err(m) => {
                return Err(m);
            },
        };
        let k2 = skip_ws(c, k1);
        let ghost prev = out@;
        out.push(v);
        assert(out@.subrange(0, out@.len() - 1) =~= prev);
        if k2 < c.len() && c[k2] == ',' {
            k = k2 + 1;
        } else if k2 < c.len() && c[k2] == ']' {
            return Ok((Json::Arr(out), k2 + 1));
        } else {
            return Err("expected `,` or `]` in array".to_string());
        }
    }
}

/// An object whose `{` is at `j`.
fn object(c: &Vec<char>, j: usize) -> (r: Result<(Json, usize), String>)
    requires
        j < c.len(),
        c.len() < MAX_TEXT,
    ensures
        read_view(r) == p_object(c@, j as int),
        r matches Ok((_, e)) ==> j < e <= c.len(),
    decreases c.len() - j, 1int,
{
    let k0 = skip_ws(c, j + 1);
    if k0 < c.len() && c[k0] == '}' {
        let out: Vec<(String, Json)> = Vec::new();
        assert(obj_view(out@) =~= Seq::<(Seq<char>, JsonV)>::empty());
        return Ok((Json::Obj(out), k0 + 1));
    }
    let mut out: Vec<(String, Json)> = Vec::new();
    let mut p = j + 1;
    assert(obj_view(out@) =~= Seq::<(Seq<char>, JsonV)>::empty());
    loop
        invariant
            j < p <= c.len(),
            c.len() < MAX_TEXT,
            p_object(c@, j as int) == p_members(c@, p as int, obj_view(out@)),
        decreases c.len() - p,
    {
        let k = skip_ws(c, p);
        if !(k < c.len() && c[k] == '"') {
            return Err("expected string key in object".to_string());
        }
        proof {
            lemma_p_str(c@, k + 1, Seq::empty());
        }
        let (key, k2) = match string_body(c, k + 1) {
            Ok(x) => x,
            Err(m) => {
                return Err(m);
            },
        };
        let k3 = skip_ws(c, k2);
        if !(k3 < c.len() && c[k3] == ':') {
            return Err("expected `:` after key".to_string());
        }
        let (v, k4) = match value(c, k3 + 1) {
            Ok(x) => x,
            Err(m) => {
                return Err(m);
            },
        };
        let k5 = skip_ws(c, k4);
        let ghost prev = out@;
        out.push((key, v));
        assert(out@.subrange(0, out@.len() - 1) =~= prev);
        if k5 < c.len() && c[k5] == ',' {
            p = k5 + 1;
        } else if k5 < c.len() && c[k5] == '}' {
            return Ok((Json::Obj(out), k5 + 1));
        } else {
            return Err("expected `,` or `}` in object".to_string());
        }
    }
}

/// Read a JSON text: its one value, with nothing but white space around it, or the reason it is
/// not one (text left after the value is refused).
pub fn parse(s: &str) -> (r: Result<Json, String>)
    requires
        s@.len() < MAX_TEXT,
    ensures
        match r {
            Ok(v) => parse_spec(s@) == Ok::<JsonV, Seq<char>>(v@),
            Err(m) => parse_spec(s@) == Err::<JsonV, Seq<char>>(m@),
        },
{
    let c = chars_of(s);
    match value(&c, 0) {
        Ok((v, k)) => {
            let e = skip_ws(&c, k);
            if e == c.len() {
                Ok(v)
            } else {
                Err(msg_unexpected(e))
            }
        },
        Err(m) => Err(m),
    }
}


// ---- writing ----------------------------------------------------------------------------

/// A lowercase hexadecimal digit.
pub open spec fn hex_char(d: nat) -> char {
    if d < 10 {
        ((d + 48) as u8) as char
    } else {
        ((d + 87) as u8) as char
    }
}

/// How one character of a string is written inside quotes.
pub open spec fn escape_char(ch: char) -> Seq<char> {
    if ch == '"' {
        seq!['\\', '"']
    } else if ch == '\\' {
        seq!['\\', '\\']
    } else if ch == '\n' {
        seq!['\\', 'n']
    } else if ch == '\r' {
        seq!['\\', 'r']
    } else if ch == '\t' {
        seq!['\\', 't']
    } else if (ch as u32) < 0x20 {
        seq!['\\', 'u', '0', '0', hex_char((ch as u32 / 16) as nat), hex_char((ch as u32 % 16) as nat)]
    } else {
        seq![ch]
    }
}

/// The escaped text of a string's characters.
pub open spec fn escaped(s: Seq<char>) -> Seq<char>
    decreases s.len(),
{
    if s.len() == 0 {
        Seq::empty()
    } else {
        escaped(s.drop_last()) + escape_char(s.last())
    }
}

/// A string written as a JSON string literal.
pub open spec fn str_text(s: Seq<char>) -> Seq<char> {
    seq!['"'] + escaped(s) + seq!['"']
}

/// The compact text of a value: no white space, object members in their order.
pub open spec fn jtext(v: JsonV) -> Seq<char>
    decreases v, 1int,
{
    match v {
        JsonV::Null => "null"@,
        JsonV::Bool(b) => if b {
            "true"@
        } else {
            "false"@
        },
        JsonV::Num(n) => number_text(n),
        JsonV::Str(s) => str_text(s),
        JsonV::Arr(a) => seq!['['] + items_text(a) + seq![']'],
        JsonV::Obj(o) => seq!['{'] + members_text(o) + seq!['}'],
    }
}

/// The elements of an array, comma-separated.
pub open spec fn items_text(a: Seq<JsonV>) -> Seq<char>
    decreases a, 0int,
{
    if a.len() == 0 {
        Seq::empty()
    } else {
        let init = a.subrange(0, a.len() - 1);
        items_text(init) + (if a.len() > 1 {
            seq![',']
        } else {
            Seq::empty()
        }) + jtext(a[a.len() - 1])
    }
}

/// The members of an object, comma-separated, each `"key":value`.
pub open spec fn members_text(o: Seq<(Seq<char>, JsonV)>) -> Seq<char>
    decreases o, 0int,
{
    if o.len() == 0 {
        Seq::empty()
    } else {
        let init = o.subrange(0, o.len() - 1);
        members_text(init) + (if o.len() > 1 {
            seq![',']
        } else {
            Seq::empty()
        }) + str_text(o[o.len() - 1].0) + seq![':'] + jtext(o[o.len() - 1].1)
    }
}

fn hex_char_exec(d: u32) -> (c: char)
    requires
        d < 16,
    ensures
        c == hex_char(d as nat),
{
    if d < 10 {
        ((d as u8) + 48u8) as char
    } else {
        ((d as u8) + 87u8) as char
    }
}

fn write_str(s: &str, out: &mut Vec<char>)
    ensures
        final(out)@ == old(out)@ + str_text(s@),
{
    let cs = chars_of(s);
    out.push('"');
    let ghost start = out@;
    let mut i: usize = 0;
    while i < cs.len()
        invariant
            i <= cs.len(),
            cs@ == s@,
            out@ == start + escaped(cs@.take(i as int)),
        decreases cs.len() - i,
    {
        let ch = cs[i];
        let ghost before = out@;
        if ch == '"' {
            out.push('\\');
            out.push('"');
        } else if ch == '\\' {
            out.push('\\');
            out.push('\\');
        } else if ch == '\n' {
            out.push('\\');
            out.push('n');
        } else if ch == '\r' {
            out.push('\\');
            out.push('r');
        } else if ch == '\t' {
            out.push('\\');
            out.push('t');
        } else if (ch as u32) < 0x20 {
            out.push('\\');
            out.push('u');
            out.push('0');
            out.push('0');
            out.push(hex_char_exec(ch as u32 / 16));
            out.push(hex_char_exec(ch as u32 % 16));
        } else {
            out.push(ch);
        }
        proof {
            assert(out@ =~= before + escape_char(ch));
            assert(cs@.take(i + 1).drop_last() =~= cs@.take(i as int));
            assert(cs@.take(i + 1).last() == ch);
        }
        i = i + 1;
    }
    assert(cs@.take(cs.len() as int) =~= cs@);
    out.push('"');
    assert(out@ =~= old(out)@ + str_text(s@));
}

#[verifier::loop_isolation(false)]
fn write_json(v: &Json, out: &mut Vec<char>)
    ensures
        final(out)@ == old(out)@ + jtext(v@),
    decreases v,
{
    match v {
        Json::Null => {
            append_str(out, "null");
        },
        Json::Bool(b) => {
            if *b {
                append_str(out, "true");
            } else {
                append_str(out, "false");
            }
        },
        Json::Num(n) => {
            n.push_text(out);
        },
        Json::Str(s) => {
            write_str(s.as_str(), out);
        },
        Json::Arr(a) => {
            out.push('[');
            let ghost start = out@;
            let mut k: usize = 0;
            assert(a@.subrange(0, 0) =~= Seq::<Json>::empty());
            while k < a.len()
                invariant
                    k <= a.len(),
                    out@ == start + items_text(arr_view(a@.subrange(0, k as int))),
                decreases a.len() - k,
            {
                proof {
                    assert(decreases_to!(*v => *a));
                    assert(decreases_to!(*a => a@));
                    assert(decreases_to!(a@ => a@[k as int]));
                }
                if k > 0 {
                    out.push(',');
                }
                write_json(&a[k as usize], out);
                proof {
                    let t = a@.subrange(0, k + 1);
                    assert(t.subrange(0, t.len() - 1) =~= a@.subrange(0, k as int));
                    lemma_arr_view(t);
                    lemma_arr_view(a@.subrange(0, k as int));
                    assert(arr_view(t).subrange(0, k as int) =~= arr_view(a@.subrange(0, k as int)));
                    assert(arr_view(t)[k as int] == jview(a@[k as int]));
                    assert(out@ =~= start + items_text(arr_view(t)));
                }
                k = k + 1;
            }
            assert(a@.subrange(0, a.len() as int) =~= a@);
            out.push(']');
            assert(out@ =~= old(out)@ + jtext(v@));
        },
        Json::Obj(o) => {
            out.push('{');
            let ghost start = out@;
            let mut k: usize = 0;
            assert(o@.subrange(0, 0) =~= Seq::<(String, Json)>::empty());
            while k < o.len()
                invariant
                    k <= o.len(),
                    out@ == start + members_text(obj_view(o@.subrange(0, k as int))),
                decreases o.len() - k,
            {
                proof {
                    assert(decreases_to!(*v => *o));
                    assert(decreases_to!(*o => o@));
                    assert(decreases_to!(o@ => o@[k as int]));
                    assert(decreases_to!(o@[k as int] => o@[k as int].1));
                }
                if k > 0 {
                    out.push(',');
                }
                write_str(o[k].0.as_str(), out);
                out.push(':');
                write_json(&o[k].1, out);
                proof {
                    let t = o@.subrange(0, k + 1);
                    lemma_obj_view(t);
                    lemma_obj_view(o@.subrange(0, k as int));
                    assert(obj_view(t).subrange(0, k as int) =~= obj_view(o@.subrange(0, k as int)));
                    assert(obj_view(t)[k as int] == (o@[k as int].0@, jview(o@[k as int].1)));
                    assert(out@ =~= start + members_text(obj_view(t)));
                }
                k = k + 1;
            }
            assert(o@.subrange(0, o.len() as int) =~= o@);
            out.push('}');
            assert(out@ =~= old(out)@ + jtext(v@));
        },
    }
}

/// The compact text of a value: objects keep their member order, strings escape quotes,
/// backslashes and control characters, and numbers are written as plain decimals.
pub fn to_string(v: &Json) -> (s: String)
    ensures
        s@ == jtext(v@),
{
    let mut out: Vec<char> = Vec::new();
    write_json(v, &mut out);
    assert(out@ =~= jtext(v@));
    string_of(&out)
}

} // verus!
