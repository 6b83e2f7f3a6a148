//! Reading a photographed die into a netlist.
//!
//! Each traced chip is published as three JavaScript files: `segdefs.js`
//! (the polygons and which node each belongs to), `transdefs.js` (the
//! transistors) and `nodenames.js` (the names). This module reads the
//! literals out of those files and turns them into a netlist blob for
//! `Netlist::decode`, plus the geometry. It embeds no die data.

use vstd::prelude::*;
use vstd::string::*;
use crate::text::{
    string_from_utf8_lossy, utf8_lossy, append_decimal, decimal, append_ascii, ascii_chars, push_char,
    str_shown, is_printable, push_str_shown,
};
pub use crate::chip::{parse, parse_checked, ChipSource, Parsed, Polygon, Rails};

verus! {

/// A JavaScript literal: the subset the die files use.
#[derive(Debug)]
pub enum Val {
    Num(i64),
    Str(String),
    Arr(Vec<Val>),
    Obj(Vec<(String, Val)>),
    Bool(bool),
    Null,
}

/// A literal as a mathematical value.
pub enum SVal {
    Num(int),
    Str(Seq<char>),
    Arr(Seq<SVal>),
    Obj(Seq<(Seq<char>, SVal)>),
    Bool(bool),
    Null,
}

impl Val {
    /// The literal's value.
    pub open spec fn sv(self) -> SVal
        decreases self,
    {
        match self {
            Val::Num(n) => SVal::Num(n as int),
            Val::Str(s) => SVal::Str(s@),
            Val::Arr(a) => SVal::Arr(sv_list(a@)),
            Val::Obj(o) => SVal::Obj(sv_pairs(o@)),
            Val::Bool(b) => SVal::Bool(b),
            Val::Null => SVal::Null,
        }
    }

    pub fn as_num(&self) -> (r: Option<i64>)
        ensures
            r == (match self {
                Val::Num(n) => Some(*n),
                _ => None,
            }),
    {
        match self {
            Val::Num(n) => Some(*n),
            _ => None,
        }
    }

    pub fn as_str(&self) -> (r: Option<&str>)
        ensures
            match self {
                Val::Str(s) => r matches Some(x) && x@ == s@,
                _ => r is None,
            },
    {
        match self {
            Val::Str(s) => Some(s.as_str()),
            _ => None,
        }
    }

    pub fn as_arr(&self) -> (r: Option<&[Val]>)
        ensures
            match self {
                Val::Arr(a) => r matches Some(x) && x@ == a@,
                _ => r is None,
            },
    {
        match self {
            Val::Arr(a) => Some(a.as_slice()),
            _ => None,
        }
    }
}

/// The values of a list of literals.
pub open spec fn sv_list(s: Seq<Val>) -> Seq<SVal>
    decreases s,
{
    if s.len() == 0 {
        Seq::empty()
    } else {
        sv_list(s.subrange(0, s.len() - 1)).push(s[s.len() - 1].sv())
    }
}

/// The values of a list of keyed literals.
pub open spec fn sv_pairs(s: Seq<(String, Val)>) -> Seq<(Seq<char>, SVal)>
    decreases s,
{
    if s.len() == 0 {
        Seq::empty()
    } else {
        sv_pairs(s.subrange(0, s.len() - 1)).push((s[s.len() - 1].0@, s[s.len() - 1].1.sv()))
    }
}

proof fn lemma_sv_list_push(s: Seq<Val>, x: Val)
    ensures
        sv_list(s.push(x)) == sv_list(s).push(x.sv()),
{
    assert(s.push(x).subrange(0, s.len() as int) =~= s);
}

proof fn lemma_sv_pairs_push(s: Seq<(String, Val)>, x: (String, Val))
    ensures
        sv_pairs(s.push(x)) == sv_pairs(s).push((x.0@, x.1.sv())),
{
    assert(s.push(x).subrange(0, s.len() as int) =~= s);
}

pub proof fn lemma_sv_list_len(s: Seq<Val>)
    ensures
        sv_list(s).len() == s.len(),
    decreases s.len(),
{
    if s.len() > 0 {
        lemma_sv_list_len(s.subrange(0, s.len() - 1));
    }
}

pub proof fn lemma_sv_list_index(s: Seq<Val>, i: int)
    requires
        0 <= i < s.len(),
    ensures
        sv_list(s)[i] == s[i].sv(),
    decreases s.len(),
{
    lemma_sv_list_len(s.subrange(0, s.len() - 1));
    if i < s.len() - 1 {
        lemma_sv_list_index(s.subrange(0, s.len() - 1), i);
    }
}

pub proof fn lemma_sv_pairs_len(s: Seq<(String, Val)>)
    ensures
        sv_pairs(s).len() == s.len(),
    decreases s.len(),
{
    if s.len() > 0 {
        lemma_sv_pairs_len(s.subrange(0, s.len() - 1));
    }
}

pub proof fn lemma_sv_pairs_index(s: Seq<(String, Val)>, i: int)
    requires
        0 <= i < s.len(),
    ensures
        sv_pairs(s)[i] == (s[i].0@, s[i].1.sv()),
    decreases s.len(),
{
    lemma_sv_pairs_len(s.subrange(0, s.len() - 1));
    if i < s.len() - 1 {
        lemma_sv_pairs_index(s.subrange(0, s.len() - 1), i);
    }
}

// ---------------------------------------------------------------------------
// The grammar, over bytes
// ---------------------------------------------------------------------------

/// The outcome of reading from a position: a value and the position after
/// it; a malformed input, with the error's text where it is stated; or an
/// input the reader cannot survive (it would index past the end: a string
/// left open where more must follow).
pub enum Reading<T> {
    Good(T, int),
    Bad(Option<Seq<char>>),
    Abort,
}

/// `r` is an error, with the text `m` where one is given.
pub open spec fn fails_with(r: Result<Val, String>, m: Option<Seq<char>>) -> bool {
    r is Err && (m is Some ==> r->Err_0@ == m->Some_0)
}

/// How `{:?}` shows a byte taken as a `char`, for printable ASCII: between
/// single quotes, with `'` and `\` behind a backslash.
pub open spec fn byte_shown(c: u8) -> Option<Seq<char>> {
    if 32 <= c <= 126 {
        if c == 39 || c == 92 {
            Some(seq!['\'', '\\', c as char, '\''])
        } else {
            Some(seq!['\'', c as char, '\''])
        }
    } else {
        None
    }
}

/// The error for a byte that starts no literal.
pub open spec fn unexpected_msg(c: u8, at: int) -> Option<Seq<char>> {
    match byte_shown(c) {
        Some(w) => Some("unexpected byte "@ + w + " at offset "@ + decimal(at as nat)),
        None => None,
    }
}

/// The error for a byte after an array item that is neither `,` nor `]`.
pub open spec fn array_msg(c: u8, at: int) -> Option<Seq<char>> {
    match byte_shown(c) {
        Some(w) => Some("expected , or ] got "@ + w + " at "@ + decimal(at as nat)),
        None => None,
    }
}

/// The error for a byte after an object entry that is neither `,` nor `}`.
pub open spec fn object_msg(c: u8, at: int) -> Option<Seq<char>> {
    match byte_shown(c) {
        Some(w) => Some("expected , or } got "@ + w + " at "@ + decimal(at as nat)),
        None => None,
    }
}

/// The error for a key not followed by `:`, for a printable-ASCII key.
pub open spec fn colon_msg(key: Seq<char>, at: int) -> Option<Seq<char>> {
    match str_shown(key) {
        Some(x) => Some("expected : after key "@ + x + " at "@ + decimal(at as nat)),
        None => None,
    }
}

/// The error for a word that is not `true`, `false` or `null`.
pub open spec fn keyword_msg(at: int) -> Seq<char> {
    "unknown keyword at offset "@ + decimal(at as nat)
}

/// The error for an object key with no characters.
pub open spec fn empty_key_msg(at: int) -> Seq<char> {
    "empty object key at "@ + decimal(at as nat)
}

/// Why `i64::from_str` refuses `t`, in its words (for a `t` it refuses).
pub open spec fn int_why(t: Seq<u8>) -> Seq<char> {
    if t.len() == 0 {
        "cannot parse integer from empty string"@
    } else {
        let d = if t[0] == 45 || t[0] == 43 {
            t.skip(1)
        } else {
            t
        };
        if d.len() == 0 || !all_digits(d) {
            "invalid digit found in string"@
        } else if t[0] == 45 {
            "number too small to fit in target type"@
        } else {
            "number too large to fit in target type"@
        }
    }
}

/// The error for a number that is not an `i64`: the text before any dot,
/// where it starts, and why.
pub open spec fn number_msg(head: Seq<u8>, at: int) -> Seq<char> {
    "bad number \""@ + ascii_chars(head) + "\" at "@ + decimal(at as nat) + ": "@ + int_why(head)
}

/// The byte at `i`, or 0 past the end.
pub open spec fn byte_at(s: Seq<u8>, i: int) -> u8 {
    if 0 <= i < s.len() {
        s[i]
    } else {
        0u8
    }
}

/// ASCII whitespace: space, tab, newline, form feed, carriage return.
pub open spec fn is_ws(b: u8) -> bool {
    b == 32 || b == 9 || b == 10 || b == 12 || b == 13
}

pub open spec fn is_digit(b: u8) -> bool {
    48 <= b <= 57
}

/// A byte that may appear in a bare object key.
pub open spec fn is_key_byte(b: u8) -> bool {
    (48 <= b <= 57) || (65 <= b <= 90) || (97 <= b <= 122) || b == 95 || b == 36
}

/// Whether bytes `a`, `b` stand at `i`.
pub open spec fn pair_at(s: Seq<u8>, i: int, a: u8, b: u8) -> bool {
    0 <= i && i + 1 < s.len() && s[i] == a && s[i + 1] == b
}

/// Past the whitespace from `i`.
pub open spec fn ws_end(s: Seq<u8>, i: int) -> int
    decreases s.len() - i,
{
    if 0 <= i < s.len() && is_ws(s[i]) {
        ws_end(s, i + 1)
    } else {
        i
    }
}

/// The first newline (or the end) from `i`.
pub open spec fn line_end(s: Seq<u8>, i: int) -> int
    decreases s.len() - i,
{
    if 0 <= i < s.len() && s[i] != 10 {
        line_end(s, i + 1)
    } else {
        i
    }
}

/// The first `*/` (or the end) from `i`.
pub open spec fn block_end(s: Seq<u8>, i: int) -> int
    decreases s.len() - i,
{
    if 0 <= i < s.len() && !pair_at(s, i, 42, 47) {
        block_end(s, i + 1)
    } else {
        i
    }
}

/// The first byte equal to `q` (or the end) from `i`.
pub open spec fn quote_end(s: Seq<u8>, i: int, q: u8) -> int
    decreases s.len() - i,
{
    if 0 <= i < s.len() && s[i] != q {
        quote_end(s, i + 1, q)
    } else {
        i
    }
}

/// The end of a bare key from `i`.
pub open spec fn key_end(s: Seq<u8>, i: int) -> int
    decreases s.len() - i,
{
    if 0 <= i < s.len() && is_key_byte(s[i]) {
        key_end(s, i + 1)
    } else {
        i
    }
}

/// The end of the digits and dots from `i`.
pub open spec fn num_end(s: Seq<u8>, i: int) -> int
    decreases s.len() - i,
{
    if 0 <= i < s.len() && (is_digit(s[i]) || s[i] == 46) {
        num_end(s, i + 1)
    } else {
        i
    }
}

/// The first dot in `[i, e)`, or `e`.
pub open spec fn dot_at(s: Seq<u8>, i: int, e: int) -> int
    decreases e - i,
{
    if i < e && s[i] != 46 {
        dot_at(s, i + 1, e)
    } else {
        i
    }
}

pub proof fn lemma_ends(s: Seq<u8>, i: int, q: u8)
    ensures
        ws_end(s, i) >= i,
        line_end(s, i) >= i,
        block_end(s, i) >= i,
        quote_end(s, i, q) >= i,
        key_end(s, i) >= i,
        num_end(s, i) >= i,
        0 <= i <= s.len() ==> ws_end(s, i) <= s.len() && line_end(s, i) <= s.len() && block_end(
            s,
            i,
        ) <= s.len() && quote_end(s, i, q) <= s.len() && key_end(s, i) <= s.len() && num_end(
            s,
            i,
        ) <= s.len(),
    decreases s.len() - i,
{
    if 0 <= i < s.len() {
        lemma_ends(s, i + 1, q);
    }
}

/// Past the whitespace and comments from `i`; `None` if `i` is past the end,
/// where the reader would index out of range.
pub open spec fn trivia_end(s: Seq<u8>, i: int) -> Option<int>
    decreases s.len() + 1 - i,
{
    if i < 0 || i > s.len() {
        None
    } else {
        let j = ws_end(s, i);
        proof {
            lemma_ends(s, i, 0);
            lemma_ends(s, j, 0);
        }
        if pair_at(s, j, 47, 47) {
            let e = line_end(s, j);
            if e > i {
                trivia_end(s, e)
            } else {
                None
            }
        } else if pair_at(s, j, 47, 42) {
            let b = block_end(s, j + 2) + 2;
            let e = if b < s.len() {
                b
            } else {
                s.len() as int
            };
            if e > i {
                trivia_end(s, e)
            } else {
                None
            }
        } else {
            Some(j)
        }
    }
}

pub proof fn lemma_trivia(s: Seq<u8>, i: int)
    requires
        trivia_end(s, i) is Some,
    ensures
        i <= trivia_end(s, i)->0 <= s.len(),
        0 <= i,
        trivia_end(s, trivia_end(s, i)->0) == trivia_end(s, i),
    decreases s.len() + 1 - i,
{
    let j = ws_end(s, i);
    lemma_ends(s, i, 0);
    lemma_ends(s, j, 0);
    if pair_at(s, j, 47, 47) {
        lemma_trivia(s, line_end(s, j));
    } else if pair_at(s, j, 47, 42) {
        let b = block_end(s, j + 2) + 2;
        let e = if b < s.len() {
            b
        } else {
            s.len() as int
        };
        lemma_trivia(s, e);
    } else {
        lemma_ws_idem(s, i);
    }
}

proof fn lemma_ws_idem(s: Seq<u8>, i: int)
    ensures
        ws_end(s, ws_end(s, i)) == ws_end(s, i),
    decreases s.len() - i,
{
    if 0 <= i < s.len() && is_ws(s[i]) {
        lemma_ws_idem(s, i + 1);
    }
}

/// A string literal at `j` (whose byte is its quote): its text and the
/// position after its closing quote. An unclosed string runs to the end and
/// leaves the position one past it.
pub open spec fn string_at(s: Seq<u8>, j: int) -> (Seq<char>, int) {
    let k = quote_end(s, j + 1, s[j]);
    (utf8_lossy(s.subrange(j + 1, k)), k + 1)
}

/// The decimal value of ASCII digits.
pub open spec fn digits_value(d: Seq<u8>) -> int
    decreases d.len(),
{
    if d.len() == 0 {
        0
    } else {
        10 * digits_value(d.drop_last()) + (d.last() - 48)
    }
}

pub open spec fn all_digits(d: Seq<u8>) -> bool {
    forall|k: int| 0 <= k < d.len() ==> is_digit(d[k])
}

/// What `i64::from_str` makes of these bytes: an optional sign, then one or
/// more digits, in range.
pub open spec fn int_of(t: Seq<u8>) -> Option<int> {
    let neg = t.len() > 0 && t[0] == 45;
    let signed = t.len() > 0 && (t[0] == 45 || t[0] == 43);
    let d = if signed {
        t.skip(1)
    } else {
        t
    };
    if d.len() == 0 || !all_digits(d) {
        None
    } else {
        let v = if neg {
            -digits_value(d)
        } else {
            digits_value(d)
        };
        if i64::MIN <= v <= i64::MAX {
            Some(v)
        } else {
            None
        }
    }
}

/// A number at `j`: an optional sign, digits and dots; the part before the
/// first dot is the integer.
pub open spec fn number_at(s: Seq<u8>, j: int) -> Reading<SVal> {
    let a = if s[j] == 45 || s[j] == 43 {
        j + 1
    } else {
        j
    };
    let e = num_end(s, a);
    match int_of(s.subrange(j, dot_at(s, j, e))) {
        Some(v) => Reading::Good(SVal::Num(v), e),
        None => Reading::Bad(Some(number_msg(s.subrange(j, dot_at(s, j, e)), j))),
    }
}

/// Whether `word` stands at `j`.
pub open spec fn word_at(s: Seq<u8>, j: int, word: Seq<u8>) -> bool {
    0 <= j && j + word.len() <= s.len() && s.subrange(j, j + word.len()) == word
}

pub open spec fn word_true() -> Seq<u8> {
    seq![116u8, 114u8, 117u8, 101u8]
}

pub open spec fn word_false() -> Seq<u8> {
    seq![102u8, 97u8, 108u8, 115u8, 101u8]
}

pub open spec fn word_null() -> Seq<u8> {
    seq![110u8, 117u8, 108u8, 108u8]
}

/// `true`, `false` or `null` at `j`.
pub open spec fn keyword_at(s: Seq<u8>, j: int) -> Reading<SVal> {
    if word_at(s, j, word_true()) {
        Reading::Good(SVal::Bool(true), j + 4)
    } else if word_at(s, j, word_false()) {
        Reading::Good(SVal::Bool(false), j + 5)
    } else if word_at(s, j, word_null()) {
        Reading::Good(SVal::Null, j + 4)
    } else {
        Reading::Bad(Some(keyword_msg(j)))
    }
}

/// A literal from `i` (after any whitespace and comments).
pub open spec fn value_at(s: Seq<u8>, i: int) -> Reading<SVal>
    decreases s.len() + 2 - i, 0nat,
{
    match trivia_end(s, i) {
        None => Reading::Abort,
        Some(j) => {
            proof {
                lemma_trivia(s, i);
            }
            let c = byte_at(s, j);
            if c == 91 {
                array_at(s, j + 1, Seq::empty())
            } else if c == 123 {
                object_at(s, j + 1, Seq::empty())
            } else if c == 39 || c == 34 {
                let (t, k) = string_at(s, j);
                Reading::Good(SVal::Str(t), k)
            } else if c == 45 || c == 43 || is_digit(c) {
                number_at(s, j)
            } else if c == 116 || c == 102 || c == 110 {
                keyword_at(s, j)
            } else {
                Reading::Bad(unexpected_msg(c, j))
            }
        },
    }
}

/// The rest of an array from `i`, its items so far `acc`.
pub open spec fn array_at(s: Seq<u8>, i: int, acc: Seq<SVal>) -> Reading<SVal>
    decreases s.len() + 2 - i, 1nat,
{
    match trivia_end(s, i) {
        None => Reading::Abort,
        Some(j) => {
            proof {
                lemma_trivia(s, i);
            }
            if byte_at(s, j) == 93 {
                Reading::Good(SVal::Arr(acc), j + 1)
            } else {
                match value_at(s, j) {
                    Reading::Abort => Reading::Abort,
                    Reading::Bad(msg) => Reading::Bad(msg),
                    Reading::Good(v, k) => {
                        if k <= j {
                            Reading::Bad(None)
                        } else {
                            match trivia_end(s, k) {
                                None => Reading::Abort,
                                Some(m) => {
                                    proof {
                                        lemma_trivia(s, k);
                                    }
                                    if byte_at(s, m) == 44 {
                                        array_at(s, m + 1, acc.push(v))
                                    } else if byte_at(s, m) == 93 {
                                        array_at(s, m, acc.push(v))
                                    } else {
                                        Reading::Bad(array_msg(byte_at(s, m), m))
                                    }
                                },
                            }
                        }
                    },
                }
            }
        },
    }
}

/// The rest of an object from `i`, its entries so far `acc`.
pub open spec fn object_at(s: Seq<u8>, i: int, acc: Seq<(Seq<char>, SVal)>) -> Reading<SVal>
    decreases s.len() + 2 - i, 1nat,
{
    match trivia_end(s, i) {
        None => Reading::Abort,
        Some(j) => {
            proof {
                lemma_trivia(s, i);
                lemma_ends(s, j, 0);
            }
            let c = byte_at(s, j);
            if c == 125 {
                Reading::Good(SVal::Obj(acc), j + 1)
            } else {
                let quoted = c == 39 || c == 34;
                let ke = key_end(s, j);
                if !quoted && ke == j {
                    Reading::Bad(Some(empty_key_msg(j)))
                } else {
                    let (key, kend) = if quoted {
                        string_at(s, j)
                    } else {
                        (utf8_lossy(s.subrange(j, ke)), ke)
                    };
                    match trivia_end(s, kend) {
                        None => Reading::Abort,
                        Some(c2) => {
                            if byte_at(s, c2) != 58 {
                                Reading::Bad(colon_msg(key, c2))
                            } else {
                                proof {
                                    lemma_ends(s, j + 1, c);
                                    lemma_trivia(s, kend);
                                }
                                match value_at(s, c2 + 1) {
                                    Reading::Abort => Reading::Abort,
                                    Reading::Bad(msg) => Reading::Bad(msg),
                                    Reading::Good(v, e) => {
                                        if e <= c2 + 1 {
                                            Reading::Bad(None)
                                        } else {
                                            match trivia_end(s, e) {
                                                None => Reading::Abort,
                                                Some(m) => {
                                                    proof {
                                                        lemma_trivia(s, e);
                                                    }
                                                    if byte_at(s, m) == 44 {
                                                        object_at(s, m + 1, acc.push((key, v)))
                                                    } else if byte_at(s, m) == 125 {
                                                        object_at(s, m, acc.push((key, v)))
                                                    } else {
                                                        Reading::Bad(object_msg(byte_at(s, m), m))
                                                    }
                                                },
                                            }
                                        }
                                    },
                                }
                            }
                        },
                    }
                }
            }
        },
    }
}

// ---------------------------------------------------------------------------
// Messages
// ---------------------------------------------------------------------------

/// Append a byte as `{:?}` shows it as a `char`, for a byte `byte_shown`
/// covers.
fn push_shown(s: &mut String, c: u8)
    requires
        byte_shown(c) is Some,
    ensures
        final(s)@ == old(s)@ + byte_shown(c)->Some_0,
{
    push_char(s, '\'');
    if c == 39 || c == 92 {
        push_char(s, '\\');
    }
    push_char(s, c as char);
    push_char(s, '\'');
    assert(s@ =~= old(s)@ + byte_shown(c)->Some_0);
}

/// Whether `byte_shown` covers the byte.
fn is_shown(c: u8) -> (r: bool)
    ensures
        r == byte_shown(c) is Some,
{
    32 <= c && c <= 126
}

/// `format!("unexpected byte {:?} at offset {}", c as char, at)`.
#[verifier::external_body]
fn fmt_unexpected_byte_debug(c: u8, at: usize) -> String {
    format!("unexpected byte {:?} at offset {}", c as char, at)
}

/// The error for a byte that starts no literal.
fn fmt_unexpected_byte(c: u8, at: usize) -> (r: String)
    ensures
        unexpected_msg(c, at as int) is Some ==> r@ == unexpected_msg(c, at as int)->Some_0,
{
    if is_shown(c) {
        let mut s = String::from_str("unexpected byte ");
        push_shown(&mut s, c);
        s.append(" at offset ");
        append_decimal(&mut s, at);
        s
    } else {
        fmt_unexpected_byte_debug(c, at)
    }
}

/// The error for a word that is not `true`, `false` or `null`.
fn fmt_unknown_keyword(at: usize) -> (r: String)
    ensures
        r@ == keyword_msg(at as int),
{
    let mut s = String::from_str("unknown keyword at offset ");
    append_decimal(&mut s, at);
    s
}

/// `format!("expected , or ] got {:?} at {}", c as char, at)`.
#[verifier::external_body]
fn fmt_expected_in_array_debug(c: u8, at: usize) -> String {
    format!("expected , or ] got {:?} at {}", c as char, at)
}

/// The error for a byte after an array item that is neither `,` nor `]`.
fn fmt_expected_in_array(c: u8, at: usize) -> (r: String)
    ensures
        array_msg(c, at as int) is Some ==> r@ == array_msg(c, at as int)->Some_0,
{
    if is_shown(c) {
        let mut s = String::from_str("expected , or ] got ");
        push_shown(&mut s, c);
        s.append(" at ");
        append_decimal(&mut s, at);
        s
    } else {
        fmt_expected_in_array_debug(c, at)
    }
}

/// The error for an object key with no characters.
fn fmt_empty_key(at: usize) -> (r: String)
    ensures
        r@ == empty_key_msg(at as int),
{
    let mut s = String::from_str("empty object key at ");
    append_decimal(&mut s, at);
    s
}

/// `format!("expected : after key {:?} at {}", key, at)`.
#[verifier::external_body]
fn fmt_expected_colon_debug(key: &str, at: usize) -> String {
    format!("expected : after key {:?} at {}", key, at)
}

/// The error for a key not followed by `:`.
fn fmt_expected_colon(key: &str, at: usize) -> (r: String)
    ensures
        colon_msg(key@, at as int) is Some ==> r@ == colon_msg(key@, at as int)->Some_0,
{
    if is_printable(key) {
        let mut s = String::from_str("expected : after key ");
        push_str_shown(&mut s, key);
        s.append(" at ");
        append_decimal(&mut s, at);
        s
    } else {
        fmt_expected_colon_debug(key, at)
    }
}

/// `format!("expected , or }} got {:?} at {}", c as char, at)`.
#[verifier::external_body]
fn fmt_expected_in_object_debug(c: u8, at: usize) -> String {
    format!("expected , or }} got {:?} at {}", c as char, at)
}

/// The error for a byte after an object entry that is neither `,` nor `}`.
fn fmt_expected_in_object(c: u8, at: usize) -> (r: String)
    ensures
        object_msg(c, at as int) is Some ==> r@ == object_msg(c, at as int)->Some_0,
{
    if is_shown(c) {
        let mut s = String::from_str("expected , or } got ");
        push_shown(&mut s, c);
        s.append(" at ");
        append_decimal(&mut s, at);
        s
    } else {
        fmt_expected_in_object_debug(c, at)
    }
}

/// The error for a number that is not an `i64`. The text is ASCII (a sign,
/// digits), which `{:?}` shows between double quotes as it is.
fn fmt_bad_number(head: &[u8], start: usize, why: &str) -> (r: String)
    requires
        forall|i: int| 0 <= i < head@.len() ==> head@[i] < 128,
    ensures
        r@ == "bad number \""@ + ascii_chars(head@) + "\" at "@ + decimal(start as nat) + ": "@ + why@,
{
    let mut s = String::from_str("bad number \"");
    append_ascii(&mut s, head);
    s.append("\" at ");
    append_decimal(&mut s, start);
    s.append(": ");
    s.append(why);
    s
}

/// The error for a declaration that is not there.
pub open spec fn decl_missing_msg(name: Seq<char>) -> Seq<char> {
    "declaration of `"@ + name + "` not found"@
}

fn fmt_decl_missing(name: &str) -> (r: String)
    ensures
        r@ == decl_missing_msg(name@),
{
    let mut s = String::from_str("declaration of `");
    s.append(name);
    s.append("` not found");
    s
}

// ---------------------------------------------------------------------------
// Reading
// ---------------------------------------------------------------------------

fn pair_at_exec(s: &[u8], i: usize, a: u8, b: u8) -> (r: bool)
    ensures
        r == pair_at(s@, i as int, a, b),
{
    i < s.len() && s.len() - i >= 2 && s[i] == a && s[i + 1] == b
}

fn word_at_exec(s: &[u8], i: usize, word: &[u8]) -> (r: bool)
    ensures
        r == word_at(s@, i as int, word@),
{
    if i > s.len() || word.len() > s.len() - i {
        return false;
    }
    let n = word.len();
    let mut k: usize = 0;
    while k < n
        invariant
            0 <= k <= n,
            n == word@.len(),
            i + n <= s@.len(),
            s@.len() == s.len(),
            forall|j: int| 0 <= j < k ==> s@[i + j] == word@[j],
        decreases n - k,
    {
        if s[i + k] != word[k] {
            assert(s@.subrange(i as int, i + n)[k as int] != word@[k as int]);
            return false;
        }
        k = k + 1;
    }
    assert(s@.subrange(i as int, i + n) =~= word@);
    true
}

proof fn lemma_digits_step(d: Seq<u8>, k: int)
    requires
        0 <= k < d.len(),
    ensures
        digits_value(d.take(k + 1)) == 10 * digits_value(d.take(k)) + (d[k] - 48),
{
    assert(d.take(k + 1).drop_last() =~= d.take(k));
}

proof fn lemma_digits_nonneg(d: Seq<u8>)
    requires
        all_digits(d),
    ensures
        digits_value(d) >= 0,
    decreases d.len(),
{
    if d.len() > 0 {
        lemma_digits_nonneg(d.drop_last());
    }
}

proof fn lemma_digits_grow(d: Seq<u8>, k: int)
    requires
        all_digits(d),
        0 <= k <= d.len(),
    ensures
        digits_value(d.take(k)) <= digits_value(d),
    decreases d.len() - k,
{
    if k < d.len() {
        lemma_digits_grow(d, k + 1);
        lemma_digits_step(d, k);
        assert(all_digits(d.take(k)));
        lemma_digits_nonneg(d.take(k));
    } else {
        assert(d.take(k) =~= d);
    }
}

/// Parse an integer the way `i64::from_str` does: an optional sign, then one
/// or more ASCII digits, in range. The error says why, in std's words.
fn int_from_ascii(t: &[u8]) -> (r: Result<i64, &'static str>)
    ensures
        r is Ok <==> int_of(t@) is Some,
        r matches Ok(v) ==> int_of(t@) == Some(v as int),
        r matches Err(w) ==> w@ == int_why(t@),
{
    let n = t.len();
    if n == 0 {
        return Err("cannot parse integer from empty string");
    }
    let neg = t[0] == 45;
    let signed = t[0] == 45 || t[0] == 43;
    let first: usize = if signed {
        1
    } else {
        0
    };
    let ghost d = if signed {
        t@.skip(1)
    } else {
        t@
    };
    if first == n {
        return Err("invalid digit found in string");
    }
    let mut mag: u64 = 0;
    let mut over = false;
    let mut k: usize = first;
    while k < n
        invariant
            first <= k <= n,
            n == t@.len(),
            first == (if signed {
                1usize
            } else {
                0usize
            }),
            d == t@.skip(first as int),
            n > 0,
            signed == (t@[0] == 45 || t@[0] == 43),
            neg == (t@[0] == 45),
            d == (if signed {
                t@.skip(1)
            } else {
                t@
            }),
            forall|j: int| first <= j < k ==> is_digit(t@[j]),
            !over ==> mag == digits_value(d.take(k - first)),
            over ==> digits_value(d.take(k - first)) > u64::MAX,
        decreases n - k,
    {
        let b = t[k];
        if !(48 <= b && b <= 57) {
            assert(!all_digits(d)) by {
                assert(d[k - first] == b);
            }
            return Err("invalid digit found in string");
        }
        proof {
            lemma_digits_step(d, k - first);
            assert(all_digits(d.take(k - first))) by {
                assert forall|j: int| 0 <= j < k - first implies is_digit(#[trigger] d.take(k - first)[j]) by {
                    assert(d.take(k - first)[j] == t@[j + first]);
                }
            }
            lemma_digits_nonneg(d.take(k - first));
        }
        if !over {
            match mag.checked_mul(10) {
                Some(x) => match x.checked_add((b - 48) as u64) {
                    Some(y) => {
                        mag = y;
                    },
                    None => {
                        over = true;
                    },
                },
                None => {
                    over = true;
                },
            }
        }
        k = k + 1;
    }
    proof {
        assert(d.take(n - first) =~= d);
        assert(all_digits(d)) by {
            assert forall|j: int| 0 <= j < d.len() implies is_digit(d[j]) by {
                assert(d[j] == t@[j + first]);
            }
        }
    }
    if neg {
        if over || mag > 9223372036854775808u64 {
            return Err("number too small to fit in target type");
        }
        if mag == 9223372036854775808u64 {
            Ok(i64::MIN)
        } else {
            Ok(-(mag as i64))
        }
    } else {
        if over || mag > 9223372036854775807u64 {
            return Err("number too large to fit in target type");
        }
        Ok(mag as i64)
    }
}

struct Parser<'a> {
    s: &'a [u8],
    i: usize,
}

impl<'a> Parser<'a> {
    /// A reader at the start of `s`.
    fn new(s: &'a [u8]) -> (r: Parser<'a>)
        ensures
            r.s@ == s@,
            r.i == 0,
    {
        Parser { s, i: 0 }
    }
}

impl<'a> Parser<'a> {
    fn skip_trivia(&mut self)
        requires
            old(self).s@.len() < usize::MAX,
            old(self).i <= old(self).s@.len(),
        ensures
            final(self).s == old(self).s,
            trivia_end(old(self).s@, old(self).i as int) == Some(final(self).i as int),
    {
        let ghost s = self.s@;
        let ghost target = trivia_end(s, self.i as int);
        let len = self.s.len();
        loop
            invariant
                self.s == old(self).s,
                s == self.s@,
                len == s.len(),
                self.i <= len,
                trivia_end(s, self.i as int) == target,
                target == trivia_end(s, old(self).i as int),
            decreases len - self.i,
        {
            let ghost i0 = self.i;
            while self.i < len && (self.s[self.i] == 32 || self.s[self.i] == 9 || self.s[self.i] == 10
                || self.s[self.i] == 12 || self.s[self.i] == 13)
                invariant
                    s == self.s@,
                    len == s.len(),
                    i0 <= self.i <= len,
                    ws_end(s, self.i as int) == ws_end(s, i0 as int),
                decreases len - self.i,
            {
                self.i = self.i + 1;
            }
            let ghost j = self.i;
            proof {
                lemma_ends(s, i0 as int, 0);
                assert(ws_end(s, j as int) == j);
                lemma_ends(s, j + 1, 0);
                lemma_ends(s, j + 2, 0);
            }
            if pair_at_exec(self.s, self.i, 47, 47) {
                while self.i < len && self.s[self.i] != 10
                    invariant
                        s == self.s@,
                        len == s.len(),
                        self.i <= len,
                        line_end(s, self.i as int) == line_end(s, ws_end(s, i0 as int)),
                    decreases len - self.i,
                {
                    self.i = self.i + 1;
                }
                proof {
                    assert(line_end(s, self.i as int) == self.i);
                    assert(line_end(s, j as int) == line_end(s, j + 1));
                }
            } else if pair_at_exec(self.s, self.i, 47, 42) {
                self.i = self.i + 2;
                while self.i < len && !pair_at_exec(self.s, self.i, 42, 47)
                    invariant
                        s == self.s@,
                        len == s.len(),
                        self.i <= len,
                        block_end(s, self.i as int) == block_end(s, ws_end(s, i0 as int) + 2),
                    decreases len - self.i,
                {
                    self.i = self.i + 1;
                }
                proof {
                    assert(block_end(s, self.i as int) == self.i);
                }
                self.i = if len - self.i >= 2 {
                    self.i + 2
                } else {
                    len
                };
            } else {
                return;
            }
        }
    }

    fn peek(&mut self) -> (c: u8)
        requires
            old(self).s@.len() < usize::MAX,
            old(self).i <= old(self).s@.len(),
        ensures
            final(self).s == old(self).s,
            trivia_end(old(self).s@, old(self).i as int) == Some(final(self).i as int),
            final(self).i <= final(self).s@.len(),
            c == byte_at(final(self).s@, final(self).i as int),
    {
        self.skip_trivia();
        proof {
            lemma_trivia(self.s@, old(self).i as int);
        }
        if self.i < self.s.len() {
            self.s[self.i]
        } else {
            0
        }
    }

    fn parse_string(&mut self) -> (r: String)
        requires
            old(self).s@.len() < usize::MAX,
            old(self).i < old(self).s@.len(),
        ensures
            final(self).s == old(self).s,
            (r@, final(self).i as int) == string_at(old(self).s@, old(self).i as int),
    {
        let quote = self.s[self.i];
        self.i = self.i + 1;
        let start = self.i;
        let len = self.s.len();
        while self.i < len && self.s[self.i] != quote
            invariant
                self.s == old(self).s,
                len == self.s@.len(),
                start <= self.i <= len,
                quote == self.s@[old(self).i as int],
                start == old(self).i + 1,
                quote_end(self.s@, self.i as int, quote) == quote_end(self.s@, start as int, quote),
            decreases len - self.i,
        {
            self.i = self.i + 1;
        }
        let out = string_from_utf8_lossy(vstd::slice::slice_subrange(self.s, start, self.i));
        self.i = self.i + 1;
        out
    }

    fn parse_number(&mut self) -> (r: Result<Val, String>)
        requires
            old(self).s@.len() < usize::MAX,
            old(self).i < old(self).s@.len(),
        ensures
            final(self).s == old(self).s,
            match number_at(old(self).s@, old(self).i as int) {
                Reading::Good(v, k) => r matches Ok(x) && x.sv() == v && final(self).i == k,
                Reading::Bad(msg) => fails_with(r, msg),
                Reading::Abort => r is Err,
            },
            r is Ok ==> final(self).i > old(self).i,
    {
        let ghost s = self.s@;
        let start = self.i;
        let len = self.s.len();
        if self.s[self.i] == 45 || self.s[self.i] == 43 {
            self.i = self.i + 1;
        }
        let ghost a = self.i;
        while self.i < len && ((48 <= self.s[self.i] && self.s[self.i] <= 57) || self.s[self.i] == 46)
            invariant
                s == self.s@,
                len == s.len(),
                a <= self.i <= len,
                num_end(s, self.i as int) == num_end(s, a as int),
                forall|k: int| a <= k < self.i ==> s[k] < 128,
            decreases len - self.i,
        {
            self.i = self.i + 1;
        }
        let e = self.i;
        let mut d = start;
        while d < e && self.s[d] != 46
            invariant
                s == self.s@,
                start <= d <= e,
                e <= len,
                len == s.len(),
                dot_at(s, d as int, e as int) == dot_at(s, start as int, e as int),
            decreases e - d,
        {
            d = d + 1;
        }
        let head = vstd::slice::slice_subrange(self.s, start, d);
        assert(forall|k: int| 0 <= k < head@.len() ==> head@[k] == s[start + k]);
        assert(forall|k: int| 0 <= k < head@.len() ==> head@[k] < 128);
        match int_from_ascii(head) {
            Ok(v) => {
                proof {
                    lemma_ends(s, a as int, 0);
                    if start == d {
                        assert(head@.len() == 0);
                    }
                }
                Ok(Val::Num(v))
            },
            Err(why) => {
                Err(fmt_bad_number(head, start, why))
            },
        }
    }

    fn parse_keyword(&mut self) -> (r: Result<Val, String>)
        requires
            old(self).s@.len() < usize::MAX,
            old(self).i <= old(self).s@.len(),
        ensures
            final(self).s == old(self).s,
            match keyword_at(old(self).s@, old(self).i as int) {
                Reading::Good(v, k) => r matches Ok(x) && x.sv() == v && final(self).i == k,
                Reading::Bad(msg) => fails_with(r, msg),
                Reading::Abort => r is Err,
            },
            r is Ok ==> final(self).i > old(self).i,
    {
        let t: [u8; 4] = [116, 114, 117, 101];
        let f: [u8; 5] = [102, 97, 108, 115, 101];
        let n: [u8; 4] = [110, 117, 108, 108];
        assert(t@ =~= word_true());
        assert(f@ =~= word_false());
        assert(n@ =~= word_null());
        assert(word_true().len() == 4 && word_false().len() == 5 && word_null().len() == 4);
        if word_at_exec(self.s, self.i, t.as_slice()) {
            self.i = self.i + 4;
            return Ok(Val::Bool(true));
        }
        if word_at_exec(self.s, self.i, f.as_slice()) {
            self.i = self.i + 5;
            return Ok(Val::Bool(false));
        }
        if word_at_exec(self.s, self.i, n.as_slice()) {
            self.i = self.i + 4;
            return Ok(Val::Null);
        }
        Err(fmt_unknown_keyword(self.i))
    }

    fn parse_value(&mut self) -> (r: Result<Val, String>)
        requires
            old(self).s@.len() < usize::MAX,
            old(self).i <= old(self).s@.len(),
        ensures
            final(self).s == old(self).s,
            match value_at(old(self).s@, old(self).i as int) {
                Reading::Good(v, k) => r matches Ok(x) && x.sv() == v && final(self).i == k,
                Reading::Bad(msg) => fails_with(r, msg),
                Reading::Abort => r is Err,
            },
            r is Ok ==> final(self).i > old(self).i,
        decreases old(self).s@.len() + 2 - old(self).i, 0nat,
    {
        let c = self.peek();
        proof {
            lemma_trivia(self.s@, old(self).i as int);
        }
        if c == 91 {
            self.parse_array()
        } else if c == 123 {
            self.parse_object()
        } else if c == 39 || c == 34 {
            proof {
                lemma_ends(self.s@, self.i + 1, c);
            }
            let t = self.parse_string();
            Ok(Val::Str(t))
        } else if c == 45 || c == 43 || (48 <= c && c <= 57) {
            self.parse_number()
        } else if c == 116 || c == 102 || c == 110 {
            self.parse_keyword()
        } else {
            Err(fmt_unexpected_byte(c, self.i))
        }
    }

    fn parse_array(&mut self) -> (r: Result<Val, String>)
        requires
            old(self).s@.len() < usize::MAX,
            old(self).i < old(self).s@.len(),
        ensures
            final(self).s == old(self).s,
            match array_at(old(self).s@, old(self).i + 1, Seq::empty()) {
                Reading::Good(v, k) => r matches Ok(x) && x.sv() == v && final(self).i == k,
                Reading::Bad(msg) => fails_with(r, msg),
                Reading::Abort => r is Err,
            },
            r is Ok ==> final(self).i > old(self).i,
        decreases old(self).s@.len() + 1 - old(self).i, 1nat,
    {
        let ghost s = self.s@;
        let ghost target = array_at(s, self.i + 1, Seq::empty());
        self.i = self.i + 1;
        let mut out: Vec<Val> = Vec::new();
        proof {
            assert(sv_list(out@) =~= Seq::<SVal>::empty());
        }
        loop
            invariant
                self.s == old(self).s,
                s == self.s@,
                s.len() < usize::MAX,
                self.i > old(self).i,
                target == array_at(s, self.i as int, sv_list(out@)),
                target == array_at(s, old(self).i + 1, Seq::empty()),
                self.i <= s.len(),
            decreases s.len() + 2 - self.i,
        {
            let ghost i0 = self.i;
            let c = self.peek();
            let ghost j = self.i;
            proof {
                lemma_trivia(s, i0 as int);
            }
            if c == 93 {
                self.i = self.i + 1;
                return Ok(Val::Arr(out));
            }
            let v = match self.parse_value() {
                Ok(v) => v,
                Err(e) => {
                    return Err(e);
                },
            };
            let ghost k = self.i;
            let ghost old_out = out@;
            out.push(v);
            proof {
                lemma_sv_list_push(old_out, v);
            }
            if self.i > self.s.len() {
                return Err(String::from_str("unterminated string"));
            }
            let c2 = self.peek();
            proof {
                lemma_trivia(s, k as int);
            }
            if c2 == 44 {
                self.i = self.i + 1;
            } else if c2 == 93 {
            } else {
                return Err(fmt_expected_in_array(c2, self.i));
            }
        }
    }

    fn parse_object(&mut self) -> (r: Result<Val, String>)
        requires
            old(self).s@.len() < usize::MAX,
            old(self).i < old(self).s@.len(),
        ensures
            final(self).s == old(self).s,
            match object_at(old(self).s@, old(self).i + 1, Seq::empty()) {
                Reading::Good(v, k) => r matches Ok(x) && x.sv() == v && final(self).i == k,
                Reading::Bad(msg) => fails_with(r, msg),
                Reading::Abort => r is Err,
            },
            r is Ok ==> final(self).i > old(self).i,
        decreases old(self).s@.len() + 1 - old(self).i, 1nat,
    {
        let ghost s = self.s@;
        let ghost target = object_at(s, self.i + 1, Seq::empty());
        let len = self.s.len();
        self.i = self.i + 1;
        let mut out: Vec<(String, Val)> = Vec::new();
        proof {
            assert(sv_pairs(out@) =~= Seq::<(Seq<char>, SVal)>::empty());
        }
        loop
            invariant
                self.s == old(self).s,
                s == self.s@,
                len == s.len(),
                s.len() < usize::MAX,
                self.i > old(self).i,
                target == object_at(s, self.i as int, sv_pairs(out@)),
                target == object_at(s, old(self).i + 1, Seq::empty()),
                self.i <= s.len(),
            decreases s.len() + 2 - self.i,
        {
            let ghost i0 = self.i;
            let c = self.peek();
            let ghost j = self.i;
            proof {
                lemma_trivia(s, i0 as int);
                lemma_ends(s, j as int, 0);
            }
            if c == 125 {
                self.i = self.i + 1;
                return Ok(Val::Obj(out));
            }
            let key = if c == 39 || c == 34 {
                self.parse_string()
            } else {
                let start = self.i;
                while self.i < len && ((48 <= self.s[self.i] && self.s[self.i] <= 57) || (65
                    <= self.s[self.i] && self.s[self.i] <= 90) || (97 <= self.s[self.i]
                    && self.s[self.i] <= 122) || self.s[self.i] == 95 || self.s[self.i] == 36)
                    invariant
                        s == self.s@,
                        len == s.len(),
                        start <= self.i <= len,
                        key_end(s, self.i as int) == key_end(s, start as int),
                    decreases len - self.i,
                {
                    self.i = self.i + 1;
                }
                if start == self.i {
                    return Err(fmt_empty_key(self.i));
                }
                string_from_utf8_lossy(vstd::slice::slice_subrange(self.s, start, self.i))
            };
            let ghost kend = self.i;
            proof {
                lemma_ends(s, j + 1, c);
            }
            if self.i > self.s.len() {
                return Err(String::from_str("unterminated string"));
            }
            let c2 = self.peek();
            if c2 != 58 {
                return Err(fmt_expected_colon(key.as_str(), self.i));
            }
            proof {
                lemma_trivia(s, kend as int);
            }
            self.i = self.i + 1;
            let v = match self.parse_value() {
                Ok(v) => v,
                Err(e) => {
                    return Err(e);
                },
            };
            let ghost e = self.i;
            let ghost old_out = out@;
            let ghost kv = (key@, v.sv());
            let entry = (key, v);
            out.push(entry);
            proof {
                lemma_sv_pairs_push(old_out, entry);
            }
            if self.i > self.s.len() {
                return Err(String::from_str("unterminated string"));
            }
            let c3 = self.peek();
            proof {
                lemma_trivia(s, e as int);
            }
            if c3 == 44 {
                self.i = self.i + 1;
            } else if c3 == 125 {
            } else {
                return Err(fmt_expected_in_object(c3, self.i));
            }
        }
    }
}

// ---------------------------------------------------------------------------
// Declarations
// ---------------------------------------------------------------------------

/// The first position from `p` at which `nd` occurs in `h`.
pub open spec fn find_from(h: Seq<u8>, nd: Seq<u8>, p: int) -> Option<int>
    decreases h.len() + 1 - p,
{
    if p < 0 || p + nd.len() > h.len() {
        None
    } else if h.subrange(p, p + nd.len()) == nd {
        Some(p)
    } else {
        find_from(h, nd, p + 1)
    }
}

/// Where the literal of `name`'s declaration starts: after the first
/// `name =`, or failing that the first `name=`.
pub open spec fn decl_start(src: Seq<u8>, name: Seq<u8>) -> Option<int> {
    let pat = name + seq![32u8, 61u8];
    let alt = name + seq![61u8];
    match find_from(src, pat, 0) {
        Some(p) => Some(p + pat.len()),
        None => match find_from(src, alt, 0) {
            Some(p) => Some(p + alt.len()),
            None => None,
        },
    }
}

/// The literal declared as `name` in `src`.
pub open spec fn decl_value(src: Seq<u8>, name: Seq<u8>) -> Reading<SVal> {
    match decl_start(src, name) {
        None => Reading::Bad(None),
        Some(at) => value_at(src.skip(at), 0),
    }
}

proof fn lemma_find_from(h: Seq<u8>, nd: Seq<u8>, p: int)
    ensures
        find_from(h, nd, p) matches Some(q) ==> p <= q && q + nd.len() <= h.len(),
    decreases h.len() + 1 - p,
{
    if !(p < 0 || p + nd.len() > h.len()) && h.subrange(p, p + nd.len()) != nd {
        lemma_find_from(h, nd, p + 1);
    }
}

fn find_exec(h: &[u8], nd: &[u8]) -> (r: Option<usize>)
    ensures
        match find_from(h@, nd@, 0) {
            Some(p) => r matches Some(q) && q == p,
            None => r is None,
        },
        r matches Some(q) ==> q + nd@.len() <= h@.len(),
{
    proof {
        lemma_find_from(h@, nd@, 0);
    }
    if nd.len() > h.len() {
        return None;
    }
    let last = h.len() - nd.len();
    let mut p: usize = 0;
    loop
        invariant
            0 <= p <= last,
            last + nd@.len() == h@.len(),
            find_from(h@, nd@, 0) == find_from(h@, nd@, p as int),
        decreases last - p,
    {
        if word_at_exec(h, p, nd) {
            return Some(p);
        }
        if p == last {
            assert(find_from(h@, nd@, p as int + 1) is None);
            return None;
        }
        p = p + 1;
    }
}

fn pattern(name: &[u8], tail: &[u8]) -> (r: Vec<u8>)
    ensures
        r@ == name@ + tail@,
{
    let mut v: Vec<u8> = Vec::new();
    let mut k: usize = 0;
    while k < name.len()
        invariant
            0 <= k <= name@.len(),
            v@ =~= name@.take(k as int),
        decreases name@.len() - k,
    {
        v.push(name[k]);
        k = k + 1;
    }
    let mut k: usize = 0;
    while k < tail.len()
        invariant
            0 <= k <= tail@.len(),
            v@ =~= name@ + tail@.take(k as int),
        decreases tail@.len() - k,
    {
        v.push(tail[k]);
        k = k + 1;
    }
    assert(tail@.take(tail@.len() as int) =~= tail@);
    v
}

/// Find `var <name> = <value>` (or `<name> = <value>`, or `<name>=`) and
/// read the literal that follows. For text known to be readable: a string
/// left open where more must follow is outside what this reads (see
/// `parse_decl_checked`).
pub fn parse_decl(src: &str, name: &str) -> (r: Result<Val, String>)
    requires
        src.spec_bytes().len() < usize::MAX,
        !(decl_value(src.spec_bytes(), name.spec_bytes()) is Abort),
    ensures
        match decl_value(src.spec_bytes(), name.spec_bytes()) {
            Reading::Good(v, _) => r matches Ok(x) && x.sv() == v,
            Reading::Bad(msg) => fails_with(r, msg),
            Reading::Abort => r is Err,
        },
        decl_start(src.spec_bytes(), name.spec_bytes()) is None ==> r is Err && r->Err_0@
            == decl_missing_msg(name@),
{
    parse_decl_checked(src, name)
}

/// `parse_decl` for any text: where a string is left open and more must
/// follow it, the answer is an error too.
pub fn parse_decl_checked(src: &str, name: &str) -> (r: Result<Val, String>)
    requires
        src.spec_bytes().len() < usize::MAX,
    ensures
        match decl_value(src.spec_bytes(), name.spec_bytes()) {
            Reading::Good(v, _) => r matches Ok(x) && x.sv() == v,
            Reading::Bad(msg) => fails_with(r, msg),
            Reading::Abort => r is Err,
        },
        decl_start(src.spec_bytes(), name.spec_bytes()) is None ==> r is Err && r->Err_0@
            == decl_missing_msg(name@),
{
    let bytes = src.as_bytes();
    let nb = name.as_bytes();
    let sp: [u8; 2] = [32, 61];
    let eq: [u8; 1] = [61];
    let pat = pattern(nb, sp.as_slice());
    let alt = pattern(nb, eq.as_slice());
    assert(sp@ =~= seq![32u8, 61u8]);
    assert(eq@ =~= seq![61u8]);
    assert(pat@ == name.spec_bytes() + seq![32u8, 61u8]);
    assert(alt@ == name.spec_bytes() + seq![61u8]);
    let at = match find_exec(bytes, pat.as_slice()) {
        Some(p) => p + pat.len(),
        None => match find_exec(bytes, alt.as_slice()) {
            Some(p) => p + alt.len(),
            None => {
                return Err(fmt_decl_missing(name));
            },
        },
    };
    assert(decl_start(src.spec_bytes(), name.spec_bytes()) == Some(at as int));
    let rest = vstd::slice::slice_subrange(bytes, at, bytes.len());
    assert(rest@ =~= bytes@.skip(at as int));
    assert(decl_value(src.spec_bytes(), name.spec_bytes()) == value_at(rest@, 0));
    let mut p = Parser::new(rest);
    p.parse_value()
}

} // verus!
