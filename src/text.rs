//! Text helpers: lengths in bytes, decimal numerals, blank names, substring
//! search, lower-casing, and lists of names kept free of repeats.

use vstd::prelude::*;
use vstd::utf8::encode_utf8;

verus! {

/// Length of the UTF-8 encoding of `s`, as `str::len` reports it.
pub open spec fn byte_len(s: Seq<char>) -> usize {
    encode_utf8(s).len() as usize
}

/// Length in bytes of a string.
pub fn text_byte_len(s: &String) -> (r: usize)
    ensures
        r == byte_len(s@),
{
    s.as_str().len()
}

pub open spec fn digit_char(d: nat) -> char {
    seq!['0', '1', '2', '3', '4', '5', '6', '7', '8', '9'][d as int]
}

/// The decimal numeral of `n`, without sign or leading zeros.
pub open spec fn decimal(n: nat) -> Seq<char>
    decreases n,
{
    if n < 10 {
        seq![digit_char(n)]
    } else {
        decimal(n / 10).push(digit_char(n % 10))
    }
}

/// Relies on `Display` for `u128` (through `ToString`): the plain decimal numeral.
#[verifier::external_body]
pub(crate) fn decimal_text(n: u128) -> (r: String)
    ensures
        r@ == decimal(n as nat),
{
    n.to_string()
}

/// The characters with the Unicode `White_Space` property.
pub open spec fn is_white(c: char) -> bool {
    let u = c as u32;
    (0x9 <= u <= 0xd) || u == 0x20 || u == 0x85 || u == 0xa0 || u == 0x1680 || (0x2000 <= u
        <= 0x200a) || u == 0x2028 || u == 0x2029 || u == 0x202f || u == 0x205f || u == 0x3000
}

/// Relies on `char::is_whitespace`: true exactly on the `White_Space` characters.
#[verifier::external_body]
pub(crate) fn char_is_white(c: char) -> (r: bool)
    ensures
        r == is_white(c),
{
    c.is_whitespace()
}

/// A name is blank when nothing is left of it once whitespace is trimmed.
pub open spec fn is_blank(s: Seq<char>) -> bool {
    forall|i: int| 0 <= i < s.len() ==> is_white(#[trigger] s[i])
}

/// Whether a string consists of whitespace only (the empty string included).
pub fn text_is_blank(s: &String) -> (r: bool)
    ensures
        r == is_blank(s@),
{
    let t = s.as_str();
    let n = t.unicode_len();
    let mut i: usize = 0;
    while i < n
        invariant
            n == s@.len(),
            t@ == s@,
            i <= n,
            forall|j: int| 0 <= j < i ==> is_white(#[trigger] s@[j]),
        decreases n - i,
    {
        if !char_is_white(t.get_char(i)) {
            return false;
        }
        i += 1;
    }
    true
}

/// `needle` occurs in `hay` as a contiguous run of characters.
pub open spec fn contains_text(hay: Seq<char>, needle: Seq<char>) -> bool {
    exists|i: int| 0 <= i <= hay.len() - needle.len() && #[trigger] hay.subrange(i, i + needle.len()) == needle
}

/// Relies on `str::contains` with a `&str` pattern: whether `needle` occurs in `hay`.
#[verifier::external_body]
pub(crate) fn text_contains(hay: &str, needle: &str) -> (r: bool)
    ensures
        r == contains_text(hay@, needle@),
{
    hay.contains(needle)
}

/// What `str::to_lowercase` makes of a string.
pub uninterp spec fn lower_of(s: Seq<char>) -> Seq<char>;

/// Relies on `str::to_lowercase`: the result depends on the characters alone.
#[verifier::external_body]
pub(crate) fn lowercase(s: &str) -> (r: String)
    ensures
        r@ == lower_of(s@),
{
    s.to_lowercase()
}

/// Whether `name` is one of `names`.
pub fn contains_name(names: &[String], name: &String) -> (r: bool)
    ensures
        r == names.deep_view().contains(name@),
{
    let mut i: usize = 0;
    while i < names.len()
        invariant
            i <= names.len(),
            forall|j: int| 0 <= j < i ==> #[trigger] names.deep_view()[j] != name@,
        decreases names.len() - i,
    {
        if names[i] == *name {
            assert(names.deep_view()[i as int] == name@);
            return true;
        }
        i += 1;
    }
    false
}

/// `acc` followed by each of `names` that is not already there, in order.
pub open spec fn append_new(acc: Seq<Seq<char>>, names: Seq<Seq<char>>) -> Seq<Seq<char>>
    decreases names.len(),
{
    if names.len() == 0 {
        acc
    } else {
        let a = append_new(acc, names.drop_last());
        if a.contains(names.last()) {
            a
        } else {
            a.push(names.last())
        }
    }
}

/// Appends to `acc` each of `names` that it does not hold yet, in order.
pub fn push_new_names(acc: &mut Vec<String>, names: &Vec<String>)
    ensures
        final(acc).deep_view() == append_new(old(acc).deep_view(), names.deep_view()),
{
    let ghost start = acc.deep_view();
    let mut i: usize = 0;
    while i < names.len()
        invariant
            i <= names.len(),
            acc.deep_view() == append_new(start, names.deep_view().subrange(0, i as int)),
        decreases names.len() - i,
    {
        let ghost before = acc.deep_view();
        assert(names.deep_view().subrange(0, i + 1).drop_last() == names.deep_view().subrange(0, i as int));
        if !contains_name(acc.as_slice(), &names[i]) {
            acc.push(names[i].clone());
            assert(acc.deep_view() =~= before.push(names.deep_view()[i as int]));
        }
        i += 1;
    }
    assert(names.deep_view().subrange(0, names.len() as int) == names.deep_view());
}

/// Appending only names not yet present keeps a repeat-free list repeat-free,
/// and the result holds exactly the names of both lists.
pub proof fn lemma_append_new(acc: Seq<Seq<char>>, names: Seq<Seq<char>>)
    requires
        acc.no_duplicates(),
    ensures
        append_new(acc, names).no_duplicates(),
        forall|x: Seq<char>| #[trigger] append_new(acc, names).contains(x) <==> (acc.contains(x) || names.contains(x)),
        acc.len() <= append_new(acc, names).len(),
        append_new(acc, names).subrange(0, acc.len() as int) == acc,
    decreases names.len(),
{
    if names.len() > 0 {
        lemma_append_new(acc, names.drop_last());
        let a = append_new(acc, names.drop_last());
        assert forall|x: Seq<char>| names.contains(x) <==> (names.drop_last().contains(x) || x == names.last()) by {
            if names.contains(x) {
                let k = choose|k: int| 0 <= k < names.len() && names[k] == x;
                if k < names.len() - 1 {
                    assert(names.drop_last()[k] == x);
                }
            }
            if names.drop_last().contains(x) {
                let k = choose|k: int| 0 <= k < names.drop_last().len() && names.drop_last()[k] == x;
                assert(names[k] == x);
            }
            if x == names.last() {
                assert(names[names.len() - 1] == x);
            }
        }
        if !a.contains(names.last()) {
            let b = a.push(names.last());
            assert forall|x: Seq<char>| b.contains(x) <==> (a.contains(x) || x == names.last()) by {
                if b.contains(x) {
                    let k = choose|k: int| 0 <= k < b.len() && b[k] == x;
                    if k < a.len() {
                        assert(a[k] == x);
                    }
                }
                if a.contains(x) {
                    let k = choose|k: int| 0 <= k < a.len() && a[k] == x;
                    assert(b[k] == x);
                }
                if x == names.last() {
                    assert(b[b.len() - 1] == x);
                }
            }
            assert(b.subrange(0, acc.len() as int) =~= a.subrange(0, acc.len() as int));
        }
    }
}

} // verus!
