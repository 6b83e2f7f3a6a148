//! Bytes to text and back: the few string operations the library needs.

use vstd::prelude::*;
use vstd::string::*;
use vstd::utf8::*;

verus! {

broadcast use vstd::utf8::encode_utf8_decode_utf8;

/// What `String::from_utf8_lossy` makes of these bytes.
pub uninterp spec fn utf8_lossy(bytes: Seq<u8>) -> Seq<char>;

/// `String::from_utf8_lossy(bytes).into_owned()`.
///
/// Claims that the result is a function of the bytes alone (named
/// `utf8_lossy`) and, as std documents, that valid UTF-8 comes back decoded
/// unchanged. What it makes of invalid sequences (replacement characters) is
/// left unsaid.
#[verifier::external_body]
pub(crate) fn string_from_utf8_lossy(bytes: &[u8]) -> (r: String)
    ensures
        r@ == utf8_lossy(bytes@),
        valid_utf8(bytes@) ==> r@ == decode_utf8(bytes@),
{
    String::from_utf8_lossy(bytes).into_owned()
}

/// Printable ASCII throughout.
pub open spec fn printable(w: Seq<char>) -> bool {
    forall|i: int| 0 <= i < w.len() ==> ' ' <= #[trigger] w[i] <= '~'
}

/// How `{:?}` shows one character of a string: `"` and `\` behind a
/// backslash, any other printable ASCII character as itself.
pub open spec fn char_in_str(c: char) -> Seq<char> {
    if c == '"' || c == '\\' {
        seq!['\\', c]
    } else {
        seq![c]
    }
}

/// The characters of a string as `{:?}` shows them between its quotes.
pub open spec fn escaped(w: Seq<char>) -> Seq<char>
    decreases w.len(),
{
    if w.len() == 0 {
        Seq::empty()
    } else {
        escaped(w.drop_last()) + char_in_str(w.last())
    }
}

/// How `{:?}` shows a string, for the printable-ASCII strings whose text is
/// stated here.
pub open spec fn str_shown(w: Seq<char>) -> Option<Seq<char>> {
    if printable(w) {
        Some(seq!['"'] + escaped(w) + seq!['"'])
    } else {
        None
    }
}

/// Whether a string is printable ASCII throughout.
pub fn is_printable(w: &str) -> (r: bool)
    ensures
        r == printable(w@),
{
    let n = w.unicode_len();
    let mut i: usize = 0;
    while i < n
        invariant
            n == w@.len(),
            0 <= i <= n,
            forall|j: int| 0 <= j < i ==> ' ' <= #[trigger] w@[j] <= '~',
        decreases n - i,
    {
        let c = w.get_char(i);
        if !(' ' <= c && c <= '~') {
            return false;
        }
        i = i + 1;
    }
    true
}

/// Append a printable-ASCII string as `{:?}` shows it.
pub fn push_str_shown(s: &mut String, w: &str)
    requires
        printable(w@),
    ensures
        final(s)@ == old(s)@ + str_shown(w@)->Some_0,
{
    push_char(s, '"');
    let n = w.unicode_len();
    let mut i: usize = 0;
    while i < n
        invariant
            n == w@.len(),
            0 <= i <= n,
            s@ == old(s)@ + seq!['"'] + escaped(w@.take(i as int)),
        decreases n - i,
    {
        let c = w.get_char(i);
        if c == '"' || c == '\\' {
            push_char(s, '\\');
        }
        push_char(s, c);
        assert(w@.take(i + 1).drop_last() =~= w@.take(i as int));
        assert(s@ =~= old(s)@ + seq!['"'] + escaped(w@.take(i + 1)));
        i = i + 1;
    }
    assert(w@.take(n as int) =~= w@);
    push_char(s, '"');
    assert(s@ =~= old(s)@ + str_shown(w@)->Some_0);
}

/// `String::push`: appends the character to the end of the string, as std
/// documents it.
#[verifier::external_body]
pub(crate) fn push_char(s: &mut String, c: char)
    ensures
        final(s)@ == old(s)@.push(c),
{
    s.push(c)
}

/// Bytes taken one for one as characters (the ASCII reading of them).
pub open spec fn ascii_chars(b: Seq<u8>) -> Seq<char> {
    b.map_values(|x: u8| x as char)
}

/// Append ASCII bytes as the characters they encode.
pub fn append_ascii(s: &mut String, b: &[u8])
    requires
        forall|i: int| 0 <= i < b@.len() ==> b@[i] < 128,
    ensures
        final(s)@ == old(s)@ + ascii_chars(b@),
{
    let mut i: usize = 0;
    while i < b.len()
        invariant
            0 <= i <= b@.len(),
            forall|k: int| 0 <= k < b@.len() ==> b@[k] < 128,
            s@ == old(s)@ + ascii_chars(b@.take(i as int)),
        decreases b@.len() - i,
    {
        let c = b[i] as char;
        push_char(s, c);
        assert(ascii_chars(b@.take(i + 1)) =~= ascii_chars(b@.take(i as int)).push(c));
        i = i + 1;
    }
    assert(b@.take(b@.len() as int) =~= b@);
}

/// Whether two strings hold the same characters.
pub fn str_eq(a: &str, b: &str) -> (r: bool)
    ensures
        r == (a@ == b@),
{
    let x = a.as_bytes();
    let y = b.as_bytes();
    proof {
        encode_utf8_decode_utf8(a@);
        encode_utf8_decode_utf8(b@);
    }
    if x.len() != y.len() {
        return false;
    }
    let n = x.len();
    let mut i: usize = 0;
    while i < n
        invariant
            0 <= i <= n,
            n == x@.len(),
            n == y@.len(),
            forall|j: int| 0 <= j < i ==> x@[j] == y@[j],
            x@ == a.spec_bytes(),
            y@ == b.spec_bytes(),
        decreases n - i,
    {
        if x[i] != y[i] {
            proof {
                encode_utf8_decode_utf8(a@);
                encode_utf8_decode_utf8(b@);
            }
            assert(x@ != y@);
            return false;
        }
        i = i + 1;
    }
    assert(x@ =~= y@);
    true
}

/// The decimal digits of `n`, most significant first, with no leading zero.
pub open spec fn decimal(n: nat) -> Seq<char>
    decreases n,
{
    if n < 10 {
        seq![digit_char(n)]
    } else {
        decimal(n / 10).push(digit_char(n % 10))
    }
}

pub open spec fn digit_char(d: nat) -> char {
    if d == 0 {
        '0'
    } else if d == 1 {
        '1'
    } else if d == 2 {
        '2'
    } else if d == 3 {
        '3'
    } else if d == 4 {
        '4'
    } else if d == 5 {
        '5'
    } else if d == 6 {
        '6'
    } else if d == 7 {
        '7'
    } else if d == 8 {
        '8'
    } else {
        '9'
    }
}

fn append_digit(s: &mut String, d: usize)
    requires
        d < 10,
    ensures
        final(s)@ == old(s)@.push(digit_char(d as nat)),
{
    let lit = if d == 0 {
        "0"
    } else if d == 1 {
        "1"
    } else if d == 2 {
        "2"
    } else if d == 3 {
        "3"
    } else if d == 4 {
        "4"
    } else if d == 5 {
        "5"
    } else if d == 6 {
        "6"
    } else if d == 7 {
        "7"
    } else if d == 8 {
        "8"
    } else {
        "9"
    };
    proof {
        reveal_strlit("0");
        reveal_strlit("1");
        reveal_strlit("2");
        reveal_strlit("3");
        reveal_strlit("4");
        reveal_strlit("5");
        reveal_strlit("6");
        reveal_strlit("7");
        reveal_strlit("8");
        reveal_strlit("9");
    }
    s.append(lit);
    assert(final(s)@ =~= old(s)@.push(digit_char(d as nat)));
}

/// Append the decimal form of `n`.
pub fn append_decimal(s: &mut String, n: usize)
    ensures
        final(s)@ == old(s)@ + decimal(n as nat),
    decreases n,
{
    if n < 10 {
        append_digit(s, n);
        assert(final(s)@ =~= old(s)@ + decimal(n as nat));
    } else {
        append_decimal(s, n / 10);
        append_digit(s, n % 10);
        assert(final(s)@ =~= old(s)@ + decimal(n as nat));
    }
}

/// Append the decimal form of a `u64`.
pub fn append_decimal_u64(s: &mut String, n: u64)
    ensures
        final(s)@ == old(s)@ + decimal(n as nat),
    decreases n,
{
    if n < 10 {
        append_digit(s, n as usize);
        assert(final(s)@ =~= old(s)@ + decimal(n as nat));
    } else {
        append_decimal_u64(s, n / 10);
        append_digit(s, (n % 10) as usize);
        assert(final(s)@ =~= old(s)@ + decimal(n as nat));
    }
}

/// The decimal form of an integer, with `-` before a negative one.
pub open spec fn signed_decimal(v: int) -> Seq<char> {
    if v < 0 {
        seq!['-'] + decimal((-v) as nat)
    } else {
        decimal(v as nat)
    }
}

/// Append the decimal form of an `i64`, as `{:?}` and `{}` show it.
pub fn append_i64(s: &mut String, v: i64)
    ensures
        final(s)@ == old(s)@ + signed_decimal(v as int),
{
    if v < 0 {
        push_char(s, '-');
        let mag: u64 = if v == i64::MIN {
            9223372036854775808u64
        } else {
            (-v) as u64
        };
        append_decimal_u64(s, mag);
        assert(final(s)@ =~= old(s)@ + signed_decimal(v as int));
    } else {
        append_decimal_u64(s, v as u64);
    }
}

/// `prefix` followed by the decimal form of `n`: the name of bit `n` of a bus.
pub fn indexed_name(prefix: &str, n: usize) -> (r: String)
    ensures
        r@ == prefix@ + decimal(n as nat),
{
    let mut s = String::from_str(prefix);
    append_decimal(&mut s, n);
    s
}

} // verus!
