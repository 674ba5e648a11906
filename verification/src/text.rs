//! Character-level rules shared by the parser, the checker and signing:
//! allowed characters, identifiers, whitespace, entity decoding, line endings
//! and `{{name}}` placeholders.
use vstd::prelude::*;
use vstd::string::*;
use vstd::utf8::*;

use crate::format::push_char;
use crate::limit::{all_digits, digits_value, is_digit};
use crate::locations::{position_at_char, Locations};
use crate::model::{diag, node_view, nodes_view, Diagnostic, DiagnosticModel, Node, NodeModel, Position, Variable, VariableModel};

verus! {

/// What `format!("{s:?}")` produces for a string: the quoted string with
/// `str::escape_debug` escapes.
pub uninterp spec fn str_debug(s: Seq<char>) -> Seq<char>;

/// The string's `Debug` form; `<str as Debug>::fmt`.
#[verifier::external_body]
pub(crate) fn debug_quoted(s: &str) -> (r: String)
    ensures
        r@ == str_debug(s@),
{
    format!("{s:?}")
}

/// The character whose scalar value is `n`; `char::from_u32`.
#[verifier::external_body]
pub(crate) fn char_from_u32(n: u32) -> (r: Option<char>)
    ensures
        r is Some <==> is_scalar(n),
        r matches Some(c) ==> c as u32 == n,
{
    char::from_u32(n)
}

/// The characters of a string, in order.
pub fn chars_of(s: &str) -> (v: Vec<char>)
    ensures
        v@ == s@,
{
    let mut v: Vec<char> = Vec::new();
    for c in it: s.chars()
        invariant
            v@ == it.seq().take(it.index() as int),
            it.seq() == s@,
    {
        v.push(c);
    }
    v
}

/// A string holding `c[lo..hi]`.
pub fn string_of(c: &Vec<char>, lo: usize, hi: usize) -> (s: String)
    requires
        lo <= hi <= c@.len(),
    ensures
        s@ == c@.subrange(lo as int, hi as int),
{
    let mut s = String::new();
    push_range(&mut s, c, lo, hi);
    s
}

/// Appends `c[lo..hi]`.
pub fn push_range(s: &mut String, c: &Vec<char>, lo: usize, hi: usize)
    requires
        lo <= hi <= c@.len(),
    ensures
        final(s)@ == old(s)@ + c@.subrange(lo as int, hi as int),
{
    let mut i = lo;
    while i < hi
        invariant
            lo <= i <= hi <= c@.len(),
            s@ == old(s)@ + c@.subrange(lo as int, i as int),
        decreases hi - i,
    {
        push_char(s, c[i]);
        assert(c@.subrange(lo as int, i + 1) == c@.subrange(lo as int, i as int).push(c@[i as int]));
        i = i + 1;
    }
}


/// First index of `c` in `s`.
#[verifier::opaque]
pub open spec fn first_index(s: Seq<char>, c: char) -> Option<int> {
    if exists|i: int| 0 <= i < s.len() && s[i] == c {
        Some(choose|i: int| 0 <= i < s.len() && s[i] == c && forall|j: int| 0 <= j < i ==> s[j] != c)
    } else {
        None
    }
}

proof fn lemma_min_witness(s: Seq<char>, c: char, i: int)
    requires
        0 <= i < s.len(),
        s[i] == c,
    ensures
        exists|k: int| 0 <= k < s.len() && s[k] == c && forall|j: int| 0 <= j < k ==> s[j] != c,
    decreases i,
{
    if exists|j: int| 0 <= j < i && s[j] == c {
        let j = choose|j: int| 0 <= j < i && s[j] == c;
        lemma_min_witness(s, c, j);
    } else {
        assert(forall|j: int| 0 <= j < i ==> s[j] != c);
    }
}

pub proof fn lemma_first_index(s: Seq<char>, c: char)
    ensures
        first_index(s, c) matches Some(d) ==> 0 <= d < s.len() && s[d] == c && forall|j: int|
            0 <= j < d ==> s[j] != c,
        first_index(s, c) is None ==> forall|j: int| 0 <= j < s.len() ==> s[j] != c,
{
    reveal(first_index);
    if exists|i: int| 0 <= i < s.len() && s[i] == c {
        let i = choose|i: int| 0 <= i < s.len() && s[i] == c;
        lemma_min_witness(s, c, i);
    }
}

/// Absolute index of the first `ch` in `c[lo..hi]`.
pub fn find_char(c: &Vec<char>, lo: usize, hi: usize, ch: char) -> (r: Option<usize>)
    requires
        lo <= hi <= c@.len(),
    ensures
        r matches Some(k) ==> lo <= k < hi && first_index(c@.subrange(lo as int, hi as int), ch)
            == Some(k - lo),
        r is None ==> first_index(c@.subrange(lo as int, hi as int), ch) is None,
{
    let ghost s = c@.subrange(lo as int, hi as int);
    let mut i: usize = lo;
    while i < hi
        invariant
            lo <= i <= hi <= c@.len(),
            s == c@.subrange(lo as int, hi as int),
            forall|j: int| 0 <= j < i - lo ==> s[j] != ch,
        decreases hi - i,
    {
        if c[i] == ch {
            let d = i - lo;
            assert(s[d as int] == ch);
            proof {
                lemma_first_index(s, ch);
                let w = first_index(s, ch)->0;
                if w < d {
                } else if w > d {
                }
            }
            return Some(i);
        }
        i = i + 1;
    }
    proof {
        lemma_first_index(s, ch);
        if first_index(s, ch) is Some {
            let w = first_index(s, ch)->0;
            assert(s[w] == ch);
        }
    }
    None
}

/// Whether `s[i] == a` and `s[i + 1] == b`.
pub open spec fn pair_at(s: Seq<char>, i: int, a: char, b: char) -> bool {
    0 <= i < s.len() - 1 && s[i] == a && s[i + 1] == b
}

/// First index `k` with `s[k] == a` and `s[k + 1] == b`.
#[verifier::opaque]
pub open spec fn first_pair(s: Seq<char>, a: char, b: char) -> Option<int> {
    if exists|i: int| #[trigger] pair_at(s, i, a, b) {
        Some(
            choose|i: int|
                #[trigger] pair_at(s, i, a, b) && forall|j: int| 0 <= j < i ==> !pair_at(s, j, a, b),
        )
    } else {
        None
    }
}

proof fn lemma_min_pair(s: Seq<char>, a: char, b: char, i: int)
    requires
        pair_at(s, i, a, b),
    ensures
        exists|k: int| #[trigger] pair_at(s, k, a, b) && forall|j: int| 0 <= j < k ==> !pair_at(s, j, a, b),
    decreases i,
{
    if exists|j: int| 0 <= j < i && #[trigger] pair_at(s, j, a, b) {
        let j = choose|j: int| 0 <= j < i && #[trigger] pair_at(s, j, a, b);
        lemma_min_pair(s, a, b, j);
    } else {
        assert(forall|j: int| 0 <= j < i ==> !pair_at(s, j, a, b));
    }
}

pub proof fn lemma_first_pair(s: Seq<char>, a: char, b: char)
    ensures
        first_pair(s, a, b) matches Some(d) ==> pair_at(s, d, a, b) && forall|j: int|
            0 <= j < d ==> !pair_at(s, j, a, b),
        first_pair(s, a, b) is None ==> forall|j: int| !pair_at(s, j, a, b),
{
    reveal(first_pair);
    if exists|i: int| #[trigger] pair_at(s, i, a, b) {
        let i = choose|i: int| #[trigger] pair_at(s, i, a, b);
        lemma_min_pair(s, a, b, i);
    }
}

/// Absolute index of the first `a b` pair in `c[lo..hi]`.
pub fn find_pair(c: &Vec<char>, lo: usize, hi: usize, a: char, b: char) -> (r: Option<usize>)
    requires
        lo <= hi <= c@.len(),
    ensures
        r matches Some(k) ==> lo <= k && k + 1 < hi && first_pair(
            c@.subrange(lo as int, hi as int),
            a,
            b,
        ) == Some(k - lo),
        r is None ==> first_pair(c@.subrange(lo as int, hi as int), a, b) is None,
{
    let ghost s = c@.subrange(lo as int, hi as int);
    let mut i: usize = lo;
    while hi - i > 1
        invariant
            lo <= i <= hi <= c@.len(),
            s == c@.subrange(lo as int, hi as int),
            forall|j: int| 0 <= j < i - lo ==> !pair_at(s, j, a, b),
        decreases hi - i,
    {
        if c[i] == a && c[i + 1] == b {
            let d = i - lo;
            assert(pair_at(s, d as int, a, b));
            proof {
                lemma_first_pair(s, a, b);
                let w = first_pair(s, a, b)->0;
                if w < d {
                } else if w > d {
                }
            }
            return Some(i);
        }
        i = i + 1;
    }
    proof {
        lemma_first_pair(s, a, b);
        if first_pair(s, a, b) is Some {
            let w = first_pair(s, a, b)->0;
            assert(pair_at(s, w, a, b));
        }
    }
    None
}

/// Characters allowed anywhere in a source: tab, line feed, carriage return,
/// and everything from space upward except U+FFFE and U+FFFF.
pub open spec fn valid_char(c: char) -> bool {
    c == '\t' || c == '\n' || c == '\r' || (c >= ' ' && c != '\u{fffe}' && c != '\u{ffff}')
}

pub fn is_valid_char(c: char) -> (b: bool)
    ensures
        b == valid_char(c),
{
    c == '\t' || c == '\n' || c == '\r' || (c >= ' ' && c != '\u{fffe}' && c != '\u{ffff}')
}

/// Characters of section IDs, variable names and tokenizer identifiers.
pub open spec fn id_char(c: char) -> bool {
    ('a' <= c <= 'z') || ('A' <= c <= 'Z') || ('0' <= c <= '9') || c == '_' || c == '-' || c
        == '.' || c == ':'
}

/// One or more ASCII letters, digits, `_`, `-`, `.`, or `:`.
pub open spec fn valid_id(s: Seq<char>) -> bool {
    s.len() > 0 && forall|i: int| 0 <= i < s.len() ==> #[trigger] id_char(s[i])
}

/// Whether `c[lo..hi]` is a valid ID.
pub fn is_valid_id(c: &Vec<char>, lo: usize, hi: usize) -> (b: bool)
    requires
        lo <= hi <= c@.len(),
    ensures
        b == valid_id(c@.subrange(lo as int, hi as int)),
{
    let ghost s = c@.subrange(lo as int, hi as int);
    if lo == hi {
        return false;
    }
    let mut i = lo;
    while i < hi
        invariant
            lo <= i <= hi <= c@.len(),
            s == c@.subrange(lo as int, hi as int),
            forall|j: int| 0 <= j < i - lo ==> #[trigger] id_char(s[j]),
        decreases hi - i,
    {
        let ch = c[i];
        if !(('a' <= ch && ch <= 'z') || ('A' <= ch && ch <= 'Z') || ('0' <= ch && ch <= '9')
            || ch == '_' || ch == '-' || ch == '.' || ch == ':') {
            assert(!id_char(s[i - lo]));
            return false;
        }
        i = i + 1;
    }
    true
}

/// Whether a string is a valid ID.
pub fn is_valid_id_str(s: &str) -> (b: bool)
    ensures
        b == valid_id(s@),
{
    let c = chars_of(s);
    assert(c@.subrange(0, c@.len() as int) == c@);
    is_valid_id(&c, 0, c.len())
}

/// Unicode `White_Space`, which `char::is_whitespace` and `str::trim` use.
pub open spec fn is_whitespace(c: char) -> bool {
    ('\u{9}' <= c <= '\u{d}') || c == ' ' || c == '\u{85}' || c == '\u{a0}' || c == '\u{1680}'
        || ('\u{2000}' <= c <= '\u{200a}') || c == '\u{2028}' || c == '\u{2029}' || c
        == '\u{202f}' || c == '\u{205f}' || c == '\u{3000}'
}

/// Nothing but whitespace: what `str::trim` turns into the empty string.
pub open spec fn blank(s: Seq<char>) -> bool {
    forall|i: int| 0 <= i < s.len() ==> #[trigger] is_whitespace(s[i])
}

pub fn is_whitespace_char(c: char) -> (b: bool)
    ensures
        b == is_whitespace(c),
{
    ('\u{9}' <= c && c <= '\u{d}') || c == ' ' || c == '\u{85}' || c == '\u{a0}' || c
        == '\u{1680}' || ('\u{2000}' <= c && c <= '\u{200a}') || c == '\u{2028}' || c
        == '\u{2029}' || c == '\u{202f}' || c == '\u{205f}' || c == '\u{3000}'
}

/// Whether `c[lo..hi]` is blank.
pub fn is_blank(c: &Vec<char>, lo: usize, hi: usize) -> (b: bool)
    requires
        lo <= hi <= c@.len(),
    ensures
        b == blank(c@.subrange(lo as int, hi as int)),
{
    let ghost s = c@.subrange(lo as int, hi as int);
    let mut i = lo;
    while i < hi
        invariant
            lo <= i <= hi <= c@.len(),
            s == c@.subrange(lo as int, hi as int),
            forall|j: int| 0 <= j < i - lo ==> #[trigger] is_whitespace(s[j]),
        decreases hi - i,
    {
        if !is_whitespace_char(c[i]) {
            assert(!is_whitespace(s[i - lo]));
            return false;
        }
        i = i + 1;
    }
    true
}

/// Whether a string is blank.
pub fn is_blank_str(s: &str) -> (b: bool)
    ensures
        b == blank(s@),
{
    let c = chars_of(s);
    assert(c@.subrange(0, c@.len() as int) == c@);
    is_blank(&c, 0, c.len())
}

/// CRLF and lone CR become LF.
pub open spec fn normalize_newlines(s: Seq<char>) -> Seq<char>
    decreases s.len(),
{
    if s.len() == 0 {
        s
    } else if s[0] == '\r' && s.len() > 1 && s[1] == '\n' {
        seq!['\n'] + normalize_newlines(s.skip(2))
    } else if s[0] == '\r' {
        seq!['\n'] + normalize_newlines(s.skip(1))
    } else {
        seq![s[0]] + normalize_newlines(s.skip(1))
    }
}

fn normalized(v: &Vec<char>) -> (s: String)
    ensures
        s@ == normalize_newlines(v@),
{
    let mut s = String::new();
    let mut i: usize = 0;
    let n = v.len();
    assert(v@.skip(0) == v@);
    while i < n
        invariant
            i <= n == v@.len(),
            s@ + normalize_newlines(v@.skip(i as int)) == normalize_newlines(v@),
        decreases n - i,
    {
        let ghost rest = v@.skip(i as int);
        if v[i] == '\r' && i + 1 < n && v[i + 1] == '\n' {
            assert(rest.skip(2) == v@.skip(i + 2));
            push_char(&mut s, '\n');
            i = i + 2;
        } else {
            assert(rest.skip(1) == v@.skip(i + 1));
            if v[i] == '\r' {
                push_char(&mut s, '\n');
            } else {
                push_char(&mut s, v[i]);
            }
            i = i + 1;
        }
    }
    assert(v@.skip(n as int).len() == 0);
    s
}

pub open spec fn is_hex_digit(c: char) -> bool {
    is_digit(c) || ('a' <= c <= 'f') || ('A' <= c <= 'F')
}

pub open spec fn all_hex(s: Seq<char>) -> bool {
    forall|i: int| 0 <= i < s.len() ==> #[trigger] is_hex_digit(s[i])
}

pub open spec fn hex_digit_value(c: char) -> int {
    if is_digit(c) {
        c as int - 48
    } else if 'a' <= c <= 'f' {
        c as int - 87
    } else {
        c as int - 55
    }
}

/// The value of a hexadecimal digit string, most significant digit first.
pub open spec fn hex_value(s: Seq<char>) -> int
    decreases s.len(),
{
    if s.len() == 0 {
        0
    } else {
        hex_value(s.drop_last()) * 16 + hex_digit_value(s.last())
    }
}

proof fn lemma_hex_value_prefix(s: Seq<char>, j: int)
    requires
        all_hex(s),
        0 <= j <= s.len(),
    ensures
        hex_value(s) >= hex_value(s.take(j)) >= 0,
    decreases s.len(),
{
    if s.len() > 0 {
        let p = s.drop_last();
        assert(all_hex(p)) by {
            assert forall|i: int| 0 <= i < p.len() implies #[trigger] is_hex_digit(p[i]) by {
                assert(is_hex_digit(s[i]));
            }
        }
        assert(is_hex_digit(s[s.len() - 1]));
        if j < s.len() {
            lemma_hex_value_prefix(p, j);
            assert(p.take(j) == s.take(j));
        } else {
            lemma_hex_value_prefix(p, p.len() as int);
            assert(p.take(p.len() as int) == p);
            assert(s.take(j) == s);
        }
    } else {
        assert(s.take(j) == s);
    }
}

proof fn lemma_digits_value_prefix(s: Seq<char>, j: int)
    requires
        all_digits(s),
        0 <= j <= s.len(),
    ensures
        digits_value(s) >= digits_value(s.take(j)) >= 0,
    decreases s.len(),
{
    if s.len() > 0 {
        let p = s.drop_last();
        assert(all_digits(p)) by {
            assert forall|i: int| 0 <= i < p.len() implies #[trigger] is_digit(p[i]) by {
                assert(is_digit(s[i]));
            }
        }
        assert(is_digit(s[s.len() - 1]));
        if j < s.len() {
            lemma_digits_value_prefix(p, j);
            assert(p.take(j) == s.take(j));
        } else {
            lemma_digits_value_prefix(p, p.len() as int);
            assert(p.take(p.len() as int) == p);
            assert(s.take(j) == s);
        }
    } else {
        assert(s.take(j) == s);
    }
}

/// `#x` followed by hexadecimal digits, or `#` followed by decimal digits,
/// whose value fits in `u32`.
pub open spec fn numeric_reference(e: Seq<char>) -> Option<u32> {
    if e.len() >= 2 && e[0] == '#' && e[1] == 'x' {
        let h = e.skip(2);
        if h.len() > 0 && all_hex(h) && hex_value(h) <= u32::MAX {
            Some(hex_value(h) as u32)
        } else {
            None
        }
    } else if e.len() >= 1 && e[0] == '#' {
        let d = e.skip(1);
        if d.len() > 0 && all_digits(d) && digits_value(d) <= u32::MAX {
            Some(digits_value(d) as u32)
        } else {
            None
        }
    } else {
        None
    }
}

/// The five named entities.
pub open spec fn named_entity(e: Seq<char>) -> Option<char> {
    if e.len() == 3 && e[0] == 'a' && e[1] == 'm' && e[2] == 'p' {
        Some('&')
    } else if e.len() == 2 && e[0] == 'l' && e[1] == 't' {
        Some('<')
    } else if e.len() == 2 && e[0] == 'g' && e[1] == 't' {
        Some('>')
    } else if e.len() == 4 && e[0] == 'q' && e[1] == 'u' && e[2] == 'o' && e[3] == 't' {
        Some('"')
    } else if e.len() == 4 && e[0] == 'a' && e[1] == 'p' && e[2] == 'o' && e[3] == 's' {
        Some('\'')
    } else {
        None
    }
}

/// The character an entity body (between `&` and `;`) stands for. Numeric
/// references must name an allowed character outside U+0080..=U+009F.
pub open spec fn entity_char(e: Seq<char>) -> Option<char> {
    match named_entity(e) {
        Some(c) => Some(c),
        None => match numeric_reference(e) {
            Some(n) => if is_scalar(n) && valid_char(n as char) && !(0x80 <= n <= 0x9f) {
                Some(n as char)
            } else {
                None
            },
            None => None,
        },
    }
}

/// Entity decoding before line-ending normalization.
#[verifier::opaque]
pub open spec fn decode_raw(v: Seq<char>) -> Result<Seq<char>, Seq<char>>
    decreases v.len(),
{
    match first_index(v, '&') {
        None => Ok(v),
        Some(i) => {
            let after = v.skip(i + 1);
            match first_index(after, ';') {
                None => Err(unclosed_entity()),
                Some(e) => {
                    let entity = after.take(e);
                    match entity_char(entity) {
                        None => Err(unsupported_entity(entity)),
                        Some(c) => {
                            proof {
                                lemma_first_index(v, '&');
                                lemma_first_index(after, ';');
                            }
                            match decode_raw(after.skip(e + 1)) {
                                Ok(t) => Ok(v.take(i) + seq![c] + t),
                                Err(x) => Err(x),
                            }
                        },
                    }
                },
            }
        },
    }
}

pub open spec fn unclosed_entity() -> Seq<char> {
    "Unclosed entity; escape a literal & as &amp;"@
}

pub open spec fn unsupported_entity(entity: Seq<char>) -> Seq<char> {
    "Unsupported entity &"@ + entity + ";"@
}

/// Entity decoding followed by line-ending normalization.
pub open spec fn decode(v: Seq<char>) -> Result<Seq<char>, Seq<char>> {
    match decode_raw(v) {
        Ok(t) => Ok(normalize_newlines(t)),
        Err(e) => Err(e),
    }
}

pub open spec fn result_view(r: Result<String, String>) -> Result<Seq<char>, Seq<char>> {
    match r {
        Ok(s) => Ok(s@),
        Err(e) => Err(e@),
    }
}

/// Value of the digits `c[lo..hi]` in base 16 (`hex`) or 10, if all are digits
/// of that base and the value fits in `u32`.
fn radix_u32(c: &Vec<char>, lo: usize, hi: usize, hex: bool) -> (r: Option<u32>)
    requires
        lo < hi <= c@.len(),
    ensures
        ({
            let s = c@.subrange(lo as int, hi as int);
            if hex {
                r == (if all_hex(s) && hex_value(s) <= u32::MAX {
                    Some(hex_value(s) as u32)
                } else {
                    None::<u32>
                })
            } else {
                r == (if all_digits(s) && digits_value(s) <= u32::MAX {
                    Some(digits_value(s) as u32)
                } else {
                    None::<u32>
                })
            }
        }),
{
    let ghost s = c@.subrange(lo as int, hi as int);
    let mut acc: u32 = 0;
    let mut i: usize = lo;
    while i < hi
        invariant
            lo <= i <= hi <= c@.len(),
            s == c@.subrange(lo as int, hi as int),
            hex ==> all_hex(s.take(i - lo)) && acc as int == hex_value(s.take(i - lo)),
            !hex ==> all_digits(s.take(i - lo)) && acc as int == digits_value(s.take(i - lo)),
        decreases hi - i,
    {
        let ch = c[i];
        let ghost t = s.take(i - lo + 1);
        assert(t.drop_last() == s.take(i - lo));
        assert(t.last() == ch);
        let d: u32;
        if hex {
            if '0' <= ch && ch <= '9' {
                d = ch as u32 - 48;
            } else if 'a' <= ch && ch <= 'f' {
                d = ch as u32 - 87;
            } else if 'A' <= ch && ch <= 'F' {
                d = ch as u32 - 55;
            } else {
                assert(!is_hex_digit(s[i - lo]));
                return None;
            }
            assert(all_hex(t)) by {
                assert forall|k: int| 0 <= k < t.len() implies #[trigger] is_hex_digit(t[k]) by {
                    if k < i - lo {
                        assert(is_hex_digit(s.take(i - lo)[k]));
                    }
                }
            }
        } else {
            if '0' <= ch && ch <= '9' {
                d = ch as u32 - 48;
            } else {
                assert(!is_digit(s[i - lo]));
                return None;
            }
            assert(all_digits(t)) by {
                assert forall|k: int| 0 <= k < t.len() implies #[trigger] is_digit(t[k]) by {
                    if k < i - lo {
                        assert(is_digit(s.take(i - lo)[k]));
                    }
                }
            }
        }
        let base: u32 = if hex {
            16
        } else {
            10
        };
        let next = match acc.checked_mul(base) {
            Some(m) => m.checked_add(d),
            None => None,
        };
        match next {
            Some(a) => {
                acc = a;
            },
            None => {
                proof {
                    if hex {
                        if all_hex(s) {
                            lemma_hex_value_prefix(s, i - lo + 1);
                        }
                    } else {
                        if all_digits(s) {
                            lemma_digits_value_prefix(s, i - lo + 1);
                        }
                    }
                }
                return None;
            },
        }
        i = i + 1;
    }
    assert(s.take(hi - lo) == s);
    Some(acc)
}

/// The character of the entity body `c[lo..hi]`.
fn entity_value(c: &Vec<char>, lo: usize, hi: usize) -> (r: Option<char>)
    requires
        lo <= hi <= c@.len(),
    ensures
        r == entity_char(c@.subrange(lo as int, hi as int)),
{
    let ghost e = c@.subrange(lo as int, hi as int);
    let n = hi - lo;
    if n == 3 && c[lo] == 'a' && c[lo + 1] == 'm' && c[lo + 2] == 'p' {
        return Some('&');
    }
    if n == 2 && c[lo] == 'l' && c[lo + 1] == 't' {
        return Some('<');
    }
    if n == 2 && c[lo] == 'g' && c[lo + 1] == 't' {
        return Some('>');
    }
    if n == 4 && c[lo] == 'q' && c[lo + 1] == 'u' && c[lo + 2] == 'o' && c[lo + 3] == 't' {
        return Some('"');
    }
    if n == 4 && c[lo] == 'a' && c[lo + 1] == 'p' && c[lo + 2] == 'o' && c[lo + 3] == 's' {
        return Some('\'');
    }
    assert(named_entity(e) is None);
    let number = if n >= 2 && c[lo] == '#' && c[lo + 1] == 'x' {
        assert(e.skip(2) == c@.subrange(lo + 2, hi as int));
        if n == 2 {
            None
        } else {
            radix_u32(c, lo + 2, hi, true)
        }
    } else if n >= 1 && c[lo] == '#' {
        assert(e.skip(1) == c@.subrange(lo + 1, hi as int));
        if n == 1 {
            None
        } else {
            radix_u32(c, lo + 1, hi, false)
        }
    } else {
        None
    };
    assert(number == numeric_reference(e));
    match number {
        Some(v) => match char_from_u32(v) {
            Some(ch) => {
                proof {
                    char_u32_cast(ch, v);
                }
                if is_valid_char(ch) && !(0x80 <= v && v <= 0x9f) {
                    Some(ch)
                } else {
                    None
                }
            },
            None => None,
        },
        None => None,
    }
}

pub open spec fn prefixed(p: Seq<char>, r: Result<Seq<char>, Seq<char>>) -> Result<
    Seq<char>,
    Seq<char>,
> {
    match r {
        Ok(t) => Ok(p + t),
        Err(x) => Err(x),
    }
}

proof fn lemma_decode_plain(v: Seq<char>)
    requires
        first_index(v, '&') is None,
    ensures
        decode_raw(v) == Ok::<Seq<char>, Seq<char>>(v),
{
    reveal(decode_raw);
}

proof fn lemma_decode_unclosed(v: Seq<char>, i: int)
    requires
        first_index(v, '&') == Some(i),
        first_index(v.skip(i + 1), ';') is None,
    ensures
        decode_raw(v) == Err::<Seq<char>, Seq<char>>(unclosed_entity()),
{
    reveal(decode_raw);
}

proof fn lemma_decode_unsupported(v: Seq<char>, i: int, e: int)
    requires
        first_index(v, '&') == Some(i),
        first_index(v.skip(i + 1), ';') == Some(e),
        entity_char(v.skip(i + 1).take(e)) is None,
    ensures
        decode_raw(v) == Err::<Seq<char>, Seq<char>>(unsupported_entity(v.skip(i + 1).take(e))),
{
    reveal(decode_raw);
}

proof fn lemma_decode_entity(v: Seq<char>, i: int, e: int, c: char)
    requires
        first_index(v, '&') == Some(i),
        first_index(v.skip(i + 1), ';') == Some(e),
        entity_char(v.skip(i + 1).take(e)) == Some(c),
    ensures
        decode_raw(v) == prefixed(v.take(i) + seq![c], decode_raw(v.skip(i + 1).skip(e + 1))),
{
    reveal(decode_raw);
    match decode_raw(v.skip(i + 1).skip(e + 1)) {
        Ok(t) => {
            assert(v.take(i) + seq![c] + t == v.take(i) + (seq![c] + t));
        },
        Err(x) => {},
    }
}

/// Appends `c[lo..hi]` to a character vector.
fn push_chars(out: &mut Vec<char>, c: &Vec<char>, lo: usize, hi: usize)
    requires
        lo <= hi <= c@.len(),
    ensures
        final(out)@ == old(out)@ + c@.subrange(lo as int, hi as int),
{
    let mut k = lo;
    while k < hi
        invariant
            lo <= k <= hi <= c@.len(),
            out@ == old(out)@ + c@.subrange(lo as int, k as int),
        decreases hi - k,
    {
        out.push(c[k]);
        assert(c@.subrange(lo as int, k + 1) == c@.subrange(lo as int, k as int).push(c@[k as int]));
        k = k + 1;
    }
}

/// Decodes entities in `c[lo..hi]`, then normalizes line endings.
pub fn decode_range(c: &Vec<char>, lo: usize, hi: usize) -> (r: Result<String, String>)
    requires
        lo <= hi <= c@.len(),
    ensures
        result_view(r) == decode(c@.subrange(lo as int, hi as int)),
{
    let ghost whole = c@.subrange(lo as int, hi as int);
    let mut out: Vec<char> = Vec::new();
    let mut cur = lo;
    assert(out@ + Seq::<char>::empty() == out@);
    loop
        invariant
            lo <= cur <= hi <= c@.len(),
            whole == c@.subrange(lo as int, hi as int),
            decode_raw(whole) == prefixed(out@, decode_raw(c@.subrange(cur as int, hi as int))),
        decreases hi - cur,
    {
        let ghost rest = c@.subrange(cur as int, hi as int);
        let ghost before = out@;
        match find_char(c, cur, hi, '&') {
            None => {
                proof {
                    lemma_decode_plain(rest);
                }
                push_chars(&mut out, c, cur, hi);
                let s = normalized(&out);
                return Ok(s);
            },
            Some(a) => {
                let ghost i = a - cur;
                assert(rest.skip(i + 1) == c@.subrange(a + 1, hi as int));
                match find_char(c, a + 1, hi, ';') {
                    None => {
                        proof {
                            lemma_decode_unclosed(rest, i);
                            reveal_strlit("Unclosed entity; escape a literal & as &amp;");
                        }
                        let e = String::from_str("Unclosed entity; escape a literal & as &amp;");
                        return Err(e);
                    },
                    Some(semi) => {
                        let ghost e = semi - (a + 1);
                        assert(rest.skip(i + 1).take(e) == c@.subrange(a + 1, semi as int));
                        match entity_value(c, a + 1, semi) {
                            None => {
                                proof {
                                    lemma_decode_unsupported(rest, i, e);
                                    reveal_strlit("Unsupported entity &");
                                    reveal_strlit(";");
                                }
                                let mut m = String::from_str("Unsupported entity &");
                                push_range(&mut m, c, a + 1, semi);
                                m.append(";");
                                return Err(m);
                            },
                            Some(ch) => {
                                proof {
                                    lemma_decode_entity(rest, i, e, ch);
                                }
                                push_chars(&mut out, c, cur, a);
                                out.push(ch);
                                assert(rest.take(i) == c@.subrange(cur as int, a as int));
                                assert(rest.skip(i + 1).skip(e + 1) == c@.subrange(
                                    semi + 1,
                                    hi as int,
                                ));
                                assert(out@ == before + (rest.take(i) + seq![ch]));
                                proof {
                                    match decode_raw(c@.subrange(semi + 1, hi as int)) {
                                        Ok(t) => {
                                            assert(before + (rest.take(i) + seq![ch]) + t == before
                                                + (rest.take(i) + seq![ch] + t));
                                        },
                                        Err(x) => {},
                                    }
                                }
                                cur = semi + 1;
                            },
                        }
                    },
                }
            },
        }
    }
}

/// A literal text run: entity-decoded in markup, verbatim in templates.
pub open spec fn literal(src: Seq<char>, a: int, b: int, entities: bool) -> Result<
    Seq<char>,
    DiagnosticModel,
> {
    if entities {
        match decode(src.subrange(a, b)) {
            Ok(t) => Ok(t),
            Err(m) => Err(diag("entity"@, m, position_at_char(src, a))),
        }
    } else {
        Ok(src.subrange(a, b))
    }
}

/// A text node for nonempty text.
pub open spec fn text_node(t: Seq<char>) -> Seq<NodeModel> {
    if t.len() == 0 {
        Seq::empty()
    } else {
        seq![NodeModel::Text(t)]
    }
}

pub open spec fn unclosed_placeholder() -> Seq<char> {
    "Unclosed {{name}} placeholder"@
}

pub open spec fn invalid_variable() -> Seq<char> {
    "Variable names must be valid IDs"@
}

pub open spec fn nodes_prefixed(p: Seq<NodeModel>, r: Result<Seq<NodeModel>, DiagnosticModel>) -> Result<
    Seq<NodeModel>,
    DiagnosticModel,
> {
    match r {
        Ok(t) => Ok(p + t),
        Err(x) => Err(x),
    }
}

/// Nodes of the text `src[cur..hi]`: literal runs separated by `{{name}}`
/// placeholders. An opening `{{` needs a later `}}` and a valid name between them.
#[verifier::opaque]
pub open spec fn text_nodes(src: Seq<char>, cur: int, hi: int, entities: bool) -> Result<
    Seq<NodeModel>,
    DiagnosticModel,
>
    decreases hi - cur,
{
    if !(0 <= cur <= hi <= src.len()) {
        Ok(Seq::empty())
    } else {
        match first_pair(src.subrange(cur, hi), '{', '{') {
            None => match literal(src, cur, hi, entities) {
                Ok(l) => Ok(text_node(l)),
                Err(x) => Err(x),
            },
            Some(k) => {
                let s = cur + k;
                let pos = position_at_char(src, s);
                match first_pair(src.subrange(s + 2, hi), '}', '}') {
                    None => Err(diag("variable"@, unclosed_placeholder(), pos)),
                    Some(k2) => {
                        let e = s + 2 + k2;
                        let id = src.subrange(s + 2, e);
                        if !valid_id(id) {
                            Err(diag("variable"@, invalid_variable(), pos))
                        } else {
                            match literal(src, cur, s, entities) {
                                Err(x) => Err(x),
                                Ok(l) => {
                                    proof {
                                        lemma_first_pair(src.subrange(cur, hi), '{', '{');
                                        lemma_first_pair(src.subrange(s + 2, hi), '}', '}');
                                    }
                                    match text_nodes(src, e + 2, hi, entities) {
                                        Err(x) => Err(x),
                                        Ok(rest) => Ok(
                                            text_node(l) + seq![
                                                NodeModel::Variable(VariableModel { id, position: pos }),
                                            ] + rest,
                                        ),
                                    }
                                },
                            }
                        }
                    },
                }
            },
        }
    }
}

proof fn lemma_text_plain(src: Seq<char>, cur: int, hi: int, entities: bool)
    requires
        0 <= cur <= hi <= src.len(),
        first_pair(src.subrange(cur, hi), '{', '{') is None,
    ensures
        text_nodes(src, cur, hi, entities) == match literal(src, cur, hi, entities) {
            Ok(l) => Ok(text_node(l)),
            Err(x) => Err::<Seq<NodeModel>, DiagnosticModel>(x),
        },
{
    reveal(text_nodes);
}

proof fn lemma_text_unclosed(src: Seq<char>, cur: int, hi: int, entities: bool, s: int)
    requires
        0 <= cur <= s,
        s + 2 <= hi <= src.len(),
        first_pair(src.subrange(cur, hi), '{', '{') == Some(s - cur),
        first_pair(src.subrange(s + 2, hi), '}', '}') is None,
    ensures
        text_nodes(src, cur, hi, entities) == Err::<Seq<NodeModel>, DiagnosticModel>(
            diag("variable"@, unclosed_placeholder(), position_at_char(src, s)),
        ),
{
    reveal(text_nodes);
}

proof fn lemma_text_bad_id(src: Seq<char>, cur: int, hi: int, entities: bool, s: int, e: int)
    requires
        0 <= cur <= s,
        s + 2 <= e,
        e + 2 <= hi <= src.len(),
        first_pair(src.subrange(cur, hi), '{', '{') == Some(s - cur),
        first_pair(src.subrange(s + 2, hi), '}', '}') == Some(e - (s + 2)),
        !valid_id(src.subrange(s + 2, e)),
    ensures
        text_nodes(src, cur, hi, entities) == Err::<Seq<NodeModel>, DiagnosticModel>(
            diag("variable"@, invalid_variable(), position_at_char(src, s)),
        ),
{
    reveal(text_nodes);
}

proof fn lemma_text_variable(src: Seq<char>, cur: int, hi: int, entities: bool, s: int, e: int)
    requires
        0 <= cur <= s,
        s + 2 <= e,
        e + 2 <= hi <= src.len(),
        first_pair(src.subrange(cur, hi), '{', '{') == Some(s - cur),
        first_pair(src.subrange(s + 2, hi), '}', '}') == Some(e - (s + 2)),
        valid_id(src.subrange(s + 2, e)),
    ensures
        text_nodes(src, cur, hi, entities) == match literal(src, cur, s, entities) {
            Err(x) => Err::<Seq<NodeModel>, DiagnosticModel>(x),
            Ok(l) => nodes_prefixed(
                text_node(l) + seq![
                    NodeModel::Variable(
                        VariableModel { id: src.subrange(s + 2, e), position: position_at_char(src, s) },
                    ),
                ],
                text_nodes(src, e + 2, hi, entities),
            ),
        },
{
    reveal(text_nodes);
    match literal(src, cur, s, entities) {
        Err(x) => {},
        Ok(l) => {
            let v = NodeModel::Variable(
                VariableModel { id: src.subrange(s + 2, e), position: position_at_char(src, s) },
            );
            match text_nodes(src, e + 2, hi, entities) {
                Ok(rest) => {
                    assert(text_node(l) + seq![v] + rest == text_node(l) + seq![v] + rest);
                },
                Err(x) => {},
            }
        },
    }
}

pub open spec fn nodes_result(r: Result<Vec<Node>, Diagnostic>) -> Result<
    Seq<NodeModel>,
    DiagnosticModel,
> {
    match r {
        Ok(v) => Ok(nodes_view(v@)),
        Err(d) => Err(d@),
    }
}

/// A text node of `c[lo..hi]`, decoded when `entities`.
fn literal_of(c: &Vec<char>, locs: &mut Locations, lo: usize, hi: usize, entities: bool) -> (r:
    Result<String, Diagnostic>)
    requires
        old(locs).wf(),
        c@ == old(locs).source(),
        lo <= hi <= c@.len(),
    ensures
        final(locs).wf(),
        final(locs).source() == old(locs).source(),
        match (r, literal(c@, lo as int, hi as int, entities)) {
            (Ok(s), Ok(t)) => s@ == t,
            (Err(d), Err(x)) => d@ == x,
            _ => false,
        },
{
    if entities {
        match decode_range(c, lo, hi) {
            Ok(t) => Ok(t),
            Err(m) => {
                let p = locs.at(c, lo);
                Err(Diagnostic::new("entity", m, p))
            },
        }
    } else {
        Ok(string_of(c, lo, hi))
    }
}

/// Pushes a text node for nonempty text.
fn push_text(nodes: &mut Vec<Node>, t: String)
    ensures
        nodes_view(final(nodes)@) == nodes_view(old(nodes)@) + text_node(t@),
{
    proof {
        crate::model::lemma_nodes_view(old(nodes)@);
    }
    if !t.as_str().is_empty() {
        let ghost before = nodes@;
        let ghost tv = t@;
        let node = Node::Text { value: t };
        assert(node_view(node) == NodeModel::Text(tv));
        nodes.push(node);
        assert(nodes@.drop_last() == before);
        assert(nodes@.last() == node);
        assert(nodes_view(nodes@) == nodes_view(before).push(NodeModel::Text(tv)));
        assert(tv.len() > 0);
        assert(text_node(tv) == seq![NodeModel::Text(tv)]);
        assert(nodes_view(before).push(NodeModel::Text(tv)) == nodes_view(before) + seq![
            NodeModel::Text(tv),
        ]);
    } else {
        assert(text_node(t@) == Seq::<NodeModel>::empty());
        assert(nodes_view(old(nodes)@) + Seq::<NodeModel>::empty() == nodes_view(old(nodes)@));
    }
}

/// Parses `{{name}}` placeholders in `c[lo..hi]`, decoding entities in the
/// literal runs when `entities`.
pub fn parse_text(c: &Vec<char>, locs: &mut Locations, lo: usize, hi: usize, entities: bool) -> (r:
    Result<Vec<Node>, Diagnostic>)
    requires
        old(locs).wf(),
        c@ == old(locs).source(),
        lo <= hi <= c@.len(),
    ensures
        final(locs).wf(),
        final(locs).source() == old(locs).source(),
        nodes_result(r) == text_nodes(c@, lo as int, hi as int, entities),
{
    let mut nodes: Vec<Node> = Vec::new();
    let mut cur = lo;
    assert(nodes_view(nodes@) == Seq::<NodeModel>::empty());
    proof {
        match text_nodes(c@, lo as int, hi as int, entities) {
            Ok(t) => {
                assert(Seq::<NodeModel>::empty() + t == t);
            },
            Err(x) => {},
        }
    }
    loop
        invariant
            locs.wf(),
            locs.source() == c@,
            c@ == old(locs).source(),
            lo <= cur <= hi <= c@.len(),
            text_nodes(c@, lo as int, hi as int, entities) == nodes_prefixed(
                nodes_view(nodes@),
                text_nodes(c@, cur as int, hi as int, entities),
            ),
        decreases hi - cur,
    {
        let ghost before = nodes_view(nodes@);
        match find_pair(c, cur, hi, '{', '{') {
            None => {
                proof {
                    lemma_text_plain(c@, cur as int, hi as int, entities);
                }
                let l = literal_of(c, locs, cur, hi, entities);
                match l {
                    Ok(t) => {
                        push_text(&mut nodes, t);
                        return Ok(nodes);
                    },
                    Err(d) => {
                        return Err(d);
                    },
                }
            },
            Some(s) => {
                let pos = locs.at(c, s);
                match find_pair(c, s + 2, hi, '}', '}') {
                    None => {
                        proof {
                            lemma_text_unclosed(c@, cur as int, hi as int, entities, s as int);
                            reveal_strlit("variable");
                            reveal_strlit("Unclosed {{name}} placeholder");
                        }
                        let m = String::from_str("Unclosed {{name}} placeholder");
                        return Err(Diagnostic::new("variable", m, pos));
                    },
                    Some(e) => {
                        if !is_valid_id(c, s + 2, e) {
                            proof {
                                lemma_text_bad_id(c@, cur as int, hi as int, entities, s as int, e as int);
                                reveal_strlit("Variable names must be valid IDs");
                            }
                            let m = String::from_str("Variable names must be valid IDs");
                            return Err(Diagnostic::new("variable", m, pos));
                        }
                        proof {
                            lemma_text_variable(c@, cur as int, hi as int, entities, s as int, e as int);
                        }
                        let l = literal_of(c, locs, cur, s, entities);
                        match l {
                            Err(d) => {
                                return Err(d);
                            },
                            Ok(t) => {
                                let ghost tv = t@;
                                push_text(&mut nodes, t);
                                let id = string_of(c, s + 2, e);
                                let ghost mid = nodes@;
                                let var = Node::Variable(Variable { id, position: pos });
                                let ghost vv = node_view(var);
                                nodes.push(var);
                                proof {
                                    assert(nodes@.drop_last() == mid);
                                    assert(nodes_view(nodes@) == nodes_view(mid).push(vv));
                                    assert(nodes_view(nodes@) == before + (text_node(tv) + seq![vv]));
                                    match text_nodes(c@, e + 2, hi as int, entities) {
                                        Ok(rest) => {
                                            assert(before + (text_node(tv) + seq![vv] + rest)
                                                == nodes_view(nodes@) + rest);
                                        },
                                        Err(x) => {},
                                    }
                                }
                                cur = e + 2;
                            },
                        }
                    },
                }
            },
        }
    }
}


proof fn lemma_first_index_at(s: Seq<char>, c: char, k: int)
    requires
        0 <= k < s.len(),
        s[k] == c,
        forall|j: int| 0 <= j < k ==> s[j] != c,
    ensures
        first_index(s, c) == Some(k),
{
    lemma_first_index(s, c);
    if let Some(d) = first_index(s, c) {
        assert(!(d < k));
        assert(!(k < d));
    }
}

proof fn lemma_decode_without_entities(v: Seq<char>)
    requires
        forall|j: int| 0 <= j < v.len() ==> v[j] != '&',
    ensures
        decode_raw(v) == Ok::<Seq<char>, Seq<char>>(v),
{
    reveal(decode_raw);
    lemma_first_index(v, '&');
}

/// Decoding `pre & body ; post`, where `pre` holds no `&` and `body` no `;`:
/// the text before, the entity's character, and the decoding of the rest.
proof fn lemma_decode_one_entity(pre: Seq<char>, body: Seq<char>, c: char, post: Seq<char>)
    requires
        forall|j: int| 0 <= j < pre.len() ==> pre[j] != '&',
        forall|j: int| 0 <= j < body.len() ==> body[j] != ';',
        entity_char(body) == Some(c),
    ensures
        decode_raw(pre + seq!['&'] + body + seq![';'] + post) == match decode_raw(post) {
            Ok(t) => Ok(pre + seq![c] + t),
            Err(x) => Err::<Seq<char>, Seq<char>>(x),
        },
{
    reveal(decode_raw);
    let v = pre + seq!['&'] + body + seq![';'] + post;
    let i = pre.len() as int;
    assert forall|j: int| 0 <= j < i implies v[j] != '&' by {
        assert(v[j] == pre[j]);
    }
    assert(v[i] == '&');
    lemma_first_index_at(v, '&', i);
    let after = v.skip(i + 1);
    assert(after =~= body + seq![';'] + post);
    let e = body.len() as int;
    assert forall|j: int| 0 <= j < e implies after[j] != ';' by {
        assert(after[j] == body[j]);
    }
    assert(after[e] == ';');
    lemma_first_index_at(after, ';', e);
    assert(after.take(e) =~= body);
    assert(after.skip(e + 1) =~= post);
    assert(v.take(i) =~= pre);
}

/// The five named entities stand for their own characters: in text with no
/// other entity, `&amp;` decodes to `&`, `&lt;` to `<`, `&gt;` to `>`,
/// `&quot;` to `"` and `&apos;` to `'`, and the rest is kept as it is.
pub proof fn law_named_entities_decode(pre: Seq<char>, post: Seq<char>)
    requires
        forall|j: int| 0 <= j < pre.len() ==> pre[j] != '&',
        forall|j: int| 0 <= j < post.len() ==> post[j] != '&',
    ensures
        decode_raw(pre + seq!['&', 'a', 'm', 'p', ';'] + post) == Ok::<Seq<char>, Seq<char>>(pre + seq!['&'] + post),
        decode_raw(pre + seq!['&', 'l', 't', ';'] + post) == Ok::<Seq<char>, Seq<char>>(pre + seq!['<'] + post),
        decode_raw(pre + seq!['&', 'g', 't', ';'] + post) == Ok::<Seq<char>, Seq<char>>(pre + seq!['>'] + post),
        decode_raw(pre + seq!['&', 'q', 'u', 'o', 't', ';'] + post) == Ok::<Seq<char>, Seq<char>>(pre + seq!['"'] + post),
        decode_raw(pre + seq!['&', 'a', 'p', 'o', 's', ';'] + post) == Ok::<Seq<char>, Seq<char>>(pre + seq!['\''] + post),
{
    lemma_decode_without_entities(post);
    let names: Seq<Seq<char>> = seq![seq!['a', 'm', 'p'], seq!['l', 't'], seq!['g', 't'], seq!['q', 'u', 'o', 't'], seq!['a', 'p', 'o', 's']];
    let chars: Seq<char> = seq!['&', '<', '>', '"', '\''];
    assert forall|k: int| 0 <= k < 5 implies decode_raw(pre + seq!['&'] + names[k] + seq![';'] + post) == Ok::<Seq<char>, Seq<char>>(
        pre + seq![chars[k]] + post,
    ) by {
        assert(entity_char(names[k]) == Some(chars[k]));
        lemma_decode_one_entity(pre, names[k], chars[k], post);
    }
    assert(pre + seq!['&', 'a', 'm', 'p', ';'] + post =~= pre + seq!['&'] + names[0] + seq![';'] + post);
    assert(pre + seq!['&', 'l', 't', ';'] + post =~= pre + seq!['&'] + names[1] + seq![';'] + post);
    assert(pre + seq!['&', 'g', 't', ';'] + post =~= pre + seq!['&'] + names[2] + seq![';'] + post);
    assert(pre + seq!['&', 'q', 'u', 'o', 't', ';'] + post =~= pre + seq!['&'] + names[3] + seq![';'] + post);
    assert(pre + seq!['&', 'a', 'p', 'o', 's', ';'] + post =~= pre + seq!['&'] + names[4] + seq![';'] + post);
}
} // verus!
