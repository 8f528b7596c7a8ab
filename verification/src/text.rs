//! Building blocks for messages: joined texts and decimal numbers.
use vstd::prelude::*;
use vstd::string::{StrSliceExecFns, StringExecFns};

verus! {

/// The two texts one after the other.
pub(crate) fn join2(a: &str, b: &str) -> (joined: String)
    ensures
        joined@ == a@ + b@,
{
    let mut joined = String::from_str(a);
    joined.append(b);
    joined
}

/// The three texts one after the other.
pub(crate) fn join3(a: &str, b: &str, c: &str) -> (joined: String)
    ensures
        joined@ == a@ + b@ + c@,
{
    let mut joined = join2(a, b);
    joined.append(c);
    joined
}

/// The digit of a number below ten.
pub open spec fn digit(d: nat) -> char {
    (('0' as u32) + d) as char
}

/// A number in decimal notation, without leading zeros.
pub open spec fn decimal(n: nat) -> Seq<char>
    decreases n,
{
    if n < 10 {
        seq![digit(n)]
    } else {
        decimal(n / 10).push(digit(n % 10))
    }
}

/// An integer in decimal notation, with a minus sign where it is negative.
pub open spec fn signed_decimal(n: int) -> Seq<char> {
    if n < 0 {
        "-"@ + decimal((-n) as nat)
    } else {
        decimal(n as nat)
    }
}

fn digit_text(d: u64) -> (text: &'static str)
    requires
        d < 10,
    ensures
        text@ == seq![digit(d as nat)],
{
    proof {
        reveal_strlit("0");
        reveal_strlit("1");
        reveal_strlit("2");
        reveal_strlit("3");
        reveal_strlit("4");
        reveal_strlit("5");
        reveal_strlit("6");
        reveal_strlit("7");
        reveal_strlit("8");
        reveal_strlit("9");
    }
    let text = if d == 0 {
        "0"
    } else if d == 1 {
        "1"
    } else if d == 2 {
        "2"
    } else if d == 3 {
        "3"
    } else if d == 4 {
        "4"
    } else if d == 5 {
        "5"
    } else if d == 6 {
        "6"
    } else if d == 7 {
        "7"
    } else if d == 8 {
        "8"
    } else {
        "9"
    };
    assert(text@ =~= seq![digit(d as nat)]);
    text
}

/// The decimal notation of `n`.
pub fn unsigned_text(n: u64) -> (text: String)
    ensures
        text@ == decimal(n as nat),
    decreases n,
{
    let last = digit_text(n % 10);
    if n < 10 {
        String::from_str(last)
    } else {
        let mut text = unsigned_text(n / 10);
        text.append(last);
        assert(text@ =~= decimal(n as nat));
        text
    }
}

/// The decimal notation of `n`, with a minus sign where it is negative.
pub fn signed_text(n: i32) -> (text: String)
    ensures
        text@ == signed_decimal(n as int),
{
    if n < 0 {
        let magnitude = unsigned_text((-(n as i64)) as u64);
        join2("-", magnitude.as_str())
    } else {
        unsigned_text(n as u64)
    }
}

/// A text in lower case.
pub uninterp spec fn lowercase(text: Seq<char>) -> Seq<char>;

/// The lower-case form of an ASCII letter, and every other character as it is.
pub open spec fn ascii_lowercase(c: char) -> char {
    if 'A' <= c <= 'Z' {
        ((c as u32) + 32) as char
    } else {
        c
    }
}

/// `str::to_lowercase`: the text in lower case. An ASCII text changes in the letters `A` to `Z`
/// only.
#[verifier::external_body]
pub(crate) fn lower_text(text: &str) -> (lower: String)
    ensures
        lower@ == lowercase(text@),
        (forall|i: int| 0 <= i < text@.len() ==> #[trigger] text@[i] < 128 as char) ==> lower@
            == text@.map_values(|c: char| ascii_lowercase(c)),
{
    text.to_lowercase()
}

/// `pattern` stands in `text` at position `i`.
pub open spec fn occurs_at(text: Seq<char>, pattern: Seq<char>, i: int) -> bool {
    0 <= i <= text.len() - pattern.len() && text.subrange(i, i + pattern.len()) == pattern
}

/// The first position from `i` on at which `pattern` stands in `text`.
pub open spec fn first_from(text: Seq<char>, pattern: Seq<char>, i: int) -> Option<int>
    decreases text.len() + 1 - i,
{
    if i > text.len() - pattern.len() {
        None
    } else if occurs_at(text, pattern, i) {
        Some(i)
    } else {
        first_from(text, pattern, i + 1)
    }
}

/// The text before the first occurrence of `pattern`, or all of it where there is none.
pub open spec fn before_first(text: Seq<char>, pattern: Seq<char>) -> Seq<char> {
    match first_from(text, pattern, 0) {
        Some(i) => text.take(i),
        None => text,
    }
}

/// The text without a leading `prefix`.
pub open spec fn without_prefix(text: Seq<char>, prefix: Seq<char>) -> Seq<char> {
    if occurs_at(text, prefix, 0) {
        text.skip(prefix.len() as int)
    } else {
        text
    }
}

/// Whether `pattern` stands in `text` at position `i`.
fn stands_at(text: &str, pattern: &str, i: usize) -> (found: bool)
    ensures
        found == occurs_at(text@, pattern@, i as int),
{
    let length: usize = text.unicode_len();
    let width: usize = pattern.unicode_len();
    if width > length || i > length - width {
        return false;
    }
    let part = text.substring_char(i, i + width);
    part.to_owned() == pattern.to_owned()
}

/// The text before the first occurrence of `pattern`, or all of it where there is none.
pub(crate) fn text_before<'a>(text: &'a str, pattern: &str) -> (head: &'a str)
    ensures
        head@ == before_first(text@, pattern@),
{
    let length: usize = text.unicode_len();
    let width: usize = pattern.unicode_len();
    if width > length {
        return text;
    }
    let mut i: usize = 0;
    while i <= length - width
        invariant
            length == text@.len(),
            width == pattern@.len(),
            width <= length,
            i <= length - width + 1,
            first_from(text@, pattern@, 0) == first_from(text@, pattern@, i as int),
        decreases length - width + 1 - i,
    {
        if stands_at(text, pattern, i) {
            let head = text.substring_char(0, i);
            assert(head@ =~= text@.take(i as int));
            return head;
        }
        if i == length - width {
            assert(first_from(text@, pattern@, i + 1) is None);
            return text;
        }
        i += 1;
    }
    text
}

/// The text without a leading `prefix`.
pub(crate) fn strip_leading<'a>(text: &'a str, prefix: &str) -> (rest: &'a str)
    ensures
        rest@ == without_prefix(text@, prefix@),
{
    if stands_at(text, prefix, 0) {
        let rest = text.substring_char(prefix.unicode_len(), text.unicode_len());
        assert(rest@ =~= text@.skip(prefix@.len() as int));
        rest
    } else {
        text
    }
}

/// Whether the character occurs in the text.
pub(crate) fn contains_char(text: &str, c: char) -> (found: bool)
    ensures
        found == text@.contains(c),
{
    let length: usize = text.unicode_len();
    let mut i: usize = 0;
    while i < length
        invariant
            length == text@.len(),
            i <= length,
            forall|j: int| 0 <= j < i ==> #[trigger] text@[j] != c,
        decreases length - i,
    {
        if text.get_char(i) == c {
            assert(text@[i as int] == c);
            return true;
        }
        i += 1;
    }
    false
}

/// A text in quotation marks, with the characters in it escaped that need it.
pub uninterp spec fn quoted(text: Seq<char>) -> Seq<char>;

/// The character is an ASCII letter or digit, or one of those that join them in a path.
pub open spec fn is_plain(c: char) -> bool {
    ('a' <= c <= 'z') || ('A' <= c <= 'Z') || ('0' <= c <= '9') || c == '/' || c == ':' || c == '.' || c
        == '-' || c == '_'
}

/// `str`'s `Debug`: the text in quotation marks. Letters, digits and the characters of a plain path
/// are not escaped.
#[verifier::external_body]
pub(crate) fn quoted_text(text: &str) -> (debug: String)
    ensures
        debug@ == quoted(text@),
        (forall|i: int| 0 <= i < text@.len() ==> is_plain(#[trigger] text@[i])) ==> debug@ == seq!['"']
            + text@ + seq!['"'],
{
    format!("{text:?}")
}

}
