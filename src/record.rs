//! Access to the fields of a decoded row, and trimming of white space.
use vstd::prelude::*;
use vstd::string::*;

verus! {

#[verifier::external_type_specification]
#[verifier::external_body]
pub struct ExStringRecord(csv::StringRecord);

/// The fields that a decoded row holds, in order.
pub uninterp spec fn record_fields(r: csv::StringRecord) -> Seq<Seq<char>>;

/// Relies on `csv::StringRecord::get`: the field at index `i`, or `None`
/// past the last field.
pub assume_specification[ csv::StringRecord::get ](r: &csv::StringRecord, i: usize) -> (res:
    Option<&str>)
    ensures
        i < record_fields(*r).len() ==> res is Some && res->0@ == record_fields(*r)[i as int],
        i >= record_fields(*r).len() ==> res is None,
;

/// The characters with the Unicode `White_Space` property, which is what
/// `str::trim` strips.
pub open spec fn is_white_space(c: char) -> bool {
    ('\u{9}' <= c && c <= '\u{d}') || c == ' ' || c == '\u{85}' || c == '\u{a0}' || c
        == '\u{1680}' || ('\u{2000}' <= c && c <= '\u{200a}') || c == '\u{2028}' || c
        == '\u{2029}' || c == '\u{202f}' || c == '\u{205f}' || c == '\u{3000}'
}

/// `s[a..b]` holds every character of `s` that is not white space, and
/// starts and ends with such a character where it is not empty.
pub open spec fn trim_bounds(s: Seq<char>, a: int, b: int) -> bool {
    &&& 0 <= a <= b <= s.len()
    &&& forall|j: int| 0 <= j < a ==> is_white_space(#[trigger] s[j])
    &&& forall|j: int| b <= j < s.len() ==> is_white_space(#[trigger] s[j])
    &&& a < b ==> !is_white_space(s[a]) && !is_white_space(s[b - 1])
    &&& a == b ==> a == 0 || a == s.len()
}

/// A text without its leading and trailing white space.
pub open spec fn trimmed(s: Seq<char>) -> Seq<char> {
    let (a, b) = choose|a: int, b: int| trim_bounds(s, a, b) && (a < b || a == 0);
    s.subrange(a, b)
}

fn white_space(c: char) -> (r: bool)
    ensures
        r == is_white_space(c),
{
    ('\u{9}' <= c && c <= '\u{d}') || c == ' ' || c == '\u{85}' || c == '\u{a0}' || c
        == '\u{1680}' || ('\u{2000}' <= c && c <= '\u{200a}') || c == '\u{2028}' || c
        == '\u{2029}' || c == '\u{202f}' || c == '\u{205f}' || c == '\u{3000}'
}

/// The text without its leading and trailing white space.
pub fn trim(s: &str) -> (r: String)
    ensures
        r@ == trimmed(s@),
{
    let n = s.unicode_len();
    let mut a: usize = 0;
    while a < n && white_space(s.get_char(a))
        invariant
            a <= n == s@.len(),
            forall|j: int| 0 <= j < a ==> is_white_space(#[trigger] s@[j]),
        decreases n - a,
    {
        a = a + 1;
    }
    let mut b: usize = n;
    while b > a && white_space(s.get_char(b - 1))
        invariant
            a <= b <= n == s@.len(),
            forall|j: int| b <= j < n ==> is_white_space(#[trigger] s@[j]),
        decreases b,
    {
        b = b - 1;
    }
    let ghost (a0, b0) = if a < b {
        (a as int, b as int)
    } else {
        (0int, 0int)
    };
    proof {
        if a == b {
            assert(a == n);
            assert(trim_bounds(s@, 0, 0));
        } else {
            assert(trim_bounds(s@, a as int, b as int));
        }
        assert forall|a2: int, b2: int| trim_bounds(s@, a2, b2) && (a2 < b2 || a2 == 0) implies a2
            == a0 && b2 == b0 by {
            if a < b {
                if a2 < a0 {
                    assert(is_white_space(s@[a2]));
                    if a2 < b2 {
                    } else {
                        assert(!is_white_space(s@[a0]));
                    }
                } else if a2 > a0 {
                    assert(!is_white_space(s@[a0]));
                }
                if a2 == a0 {
                    if b2 < b0 {
                        assert(is_white_space(s@[b0 - 1]));
                    } else if b2 > b0 {
                        assert(is_white_space(s@[b2 - 1]));
                    }
                }
            } else {
                if a2 < b2 {
                    assert(is_white_space(s@[a2]));
                }
            }
        }
    }
    s.substring_char(a, b).to_owned()
}

} // verus!
