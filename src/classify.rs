//! The classes that a character falls into for shard addressing, their
//! enumeration, and the names under which they appear on disk.
use vstd::prelude::*;
use crate::text::{chars_of, string_from_chars};

verus! {

/// The class of one character of a shard key: a lowercase ASCII letter or
/// an ASCII digit stands for itself; every other character falls into the
/// single symbol class.
#[derive(Debug, Clone, Copy, PartialEq, Eq, Hash, Structural)]
pub enum CharType {
    AlphaNumeric(char),
    Symbols,
}

pub open spec fn is_lower_letter(c: char) -> bool {
    'a' <= c && c <= 'z'
}

pub open spec fn is_upper_letter(c: char) -> bool {
    'A' <= c && c <= 'Z'
}

pub open spec fn is_digit(c: char) -> bool {
    '0' <= c && c <= '9'
}

/// The number of classes: 26 letters, 10 digits where digits are a class of
/// their own, and the symbol class.
pub open spec fn class_count(digits: bool) -> nat {
    if digits { 37 } else { 27 }
}

/// The class at position `i` of the enumeration: letters `a..z`, then the
/// digits `0..9` where they are enabled, then the symbol class.
pub open spec fn type_at(i: int, digits: bool) -> CharType {
    if 0 <= i < 26 {
        CharType::AlphaNumeric((97 + i) as char)
    } else if digits && 26 <= i < 36 {
        CharType::AlphaNumeric((48 + (i - 26)) as char)
    } else {
        CharType::Symbols
    }
}

/// The enumeration of every class, in a fixed order.
pub open spec fn spec_char_types(digits: bool) -> Seq<CharType> {
    Seq::new(class_count(digits), |i: int| type_at(i, digits))
}

/// Whether `t` is one of the enumerated classes.
pub open spec fn in_alphabet(t: CharType, digits: bool) -> bool {
    match t {
        CharType::AlphaNumeric(c) => is_lower_letter(c) || (digits && is_digit(c)),
        CharType::Symbols => true,
    }
}

/// The position of an enumerated class in the enumeration.
pub open spec fn class_index(t: CharType, digits: bool) -> int {
    match t {
        CharType::AlphaNumeric(c) => if is_lower_letter(c) {
            c as int - 97
        } else {
            26 + (c as int - 48)
        },
        CharType::Symbols => class_count(digits) - 1,
    }
}

/// The class of a character that has already been case-folded. An ASCII
/// capital is taken as its lowercase letter.
pub open spec fn spec_classify(c: char, digits: bool) -> CharType {
    if is_lower_letter(c) {
        CharType::AlphaNumeric(c)
    } else if is_upper_letter(c) {
        CharType::AlphaNumeric((c as u32 + 32) as char)
    } else if digits && is_digit(c) {
        CharType::AlphaNumeric(c)
    } else {
        CharType::Symbols
    }
}

/// The name of a class on disk: the character itself, or `symbols`.
pub open spec fn spec_class_name(t: CharType) -> Seq<char> {
    match t {
        CharType::AlphaNumeric(c) => seq![c],
        CharType::Symbols => seq!['s', 'y', 'm', 'b', 'o', 'l', 's'],
    }
}

/// `name` placed under the directory `root`, with a `/` between them
/// unless `root` is empty or already ends in one.
pub open spec fn spec_join(root: Seq<char>, name: Seq<char>) -> Seq<char> {
    if root.len() == 0 {
        name
    } else if root.last() == '/' {
        root + name
    } else {
        root + seq!['/'] + name
    }
}

/// Every enumerated class sits at its own position of the enumeration, and
/// the position of each class lies inside it.
pub proof fn lemma_class_index(digits: bool)
    ensures
        forall|i: int|
            0 <= i < class_count(digits) ==> {
                &&& in_alphabet(#[trigger] type_at(i, digits), digits)
                &&& class_index(type_at(i, digits), digits) == i
            },
        forall|t: CharType|
            #[trigger] in_alphabet(t, digits) ==> {
                &&& 0 <= class_index(t, digits) < class_count(digits)
                &&& type_at(class_index(t, digits), digits) == t
            },
{
    assert forall|t: CharType| #[trigger] in_alphabet(t, digits) implies {
        &&& 0 <= class_index(t, digits) < class_count(digits)
        &&& type_at(class_index(t, digits), digits) == t
    } by {
        if let CharType::AlphaNumeric(c) = t {
            if is_lower_letter(c) {
                assert(((97 + (c as int - 97)) as char) == c);
            } else {
                assert(((48 + (c as int - 48)) as char) == c);
            }
        }
    }
}

/// Classification lands in the enumeration, and the class of a class's own
/// character is that class again.
pub proof fn lemma_classify_idempotent(c: char, digits: bool)
    ensures
        in_alphabet(spec_classify(c, digits), digits),
        spec_classify(c, digits) matches CharType::AlphaNumeric(x) ==> spec_classify(x, digits)
            == spec_classify(c, digits),
{
}

/// Classifies a character that has already been case-folded.
pub fn classify(c: char, digits: bool) -> (r: CharType)
    ensures
        r == spec_classify(c, digits),
        in_alphabet(r, digits),
{
    if 'a' <= c && c <= 'z' {
        CharType::AlphaNumeric(c)
    } else if 'A' <= c && c <= 'Z' {
        CharType::AlphaNumeric(((c as u32) + 32) as u8 as char)
    } else if digits && '0' <= c && c <= '9' {
        CharType::AlphaNumeric(c)
    } else {
        CharType::Symbols
    }
}

/// The lowercase ASCII letters, in order.
pub fn alphabet() -> (r: Vec<char>)
    ensures
        r@.len() == 26,
        forall|i: int| 0 <= i < 26 ==> r@[i] == (97 + i) as char,
{
    let mut r: Vec<char> = Vec::new();
    let mut b: u8 = 97;
    while b <= 122
        invariant
            97 <= b <= 123,
            r@.len() == b - 97,
            forall|i: int| 0 <= i < r@.len() ==> r@[i] == (97 + i) as char,
        decreases 123 - b,
    {
        r.push(b as char);
        b = b + 1;
    }
    r
}

/// Every class, in the order of the enumeration: letters, digits where
/// `digits` makes them a class of their own, then the symbol class.
pub fn char_types(digits: bool) -> (r: Vec<CharType>)
    ensures
        r@ == spec_char_types(digits),
{
    let mut r: Vec<CharType> = Vec::new();
    let mut b: u8 = 97;
    while b <= 122
        invariant
            97 <= b <= 123,
            r@.len() == b - 97,
            forall|i: int| 0 <= i < r@.len() ==> r@[i] == type_at(i, digits),
        decreases 123 - b,
    {
        r.push(CharType::AlphaNumeric(b as char));
        b = b + 1;
    }
    if digits {
        let mut d: u8 = 48;
        while d <= 57
            invariant
                digits,
                48 <= d <= 58,
                r@.len() == 26 + (d - 48),
                forall|i: int| 0 <= i < r@.len() ==> r@[i] == type_at(i, digits),
            decreases 58 - d,
        {
            r.push(CharType::AlphaNumeric(d as char));
            d = d + 1;
        }
    }
    r.push(CharType::Symbols);
    assert(r@ =~= spec_char_types(digits));
    r
}

/// The name of a class on disk.
pub fn class_name(t: CharType) -> (r: String)
    ensures
        r@ == spec_class_name(t),
{
    match t {
        CharType::AlphaNumeric(c) => {
            let v: Vec<char> = vec![c];
            let r = string_from_chars(v.as_slice());
            assert(r@ =~= spec_class_name(t));
            r
        },
        CharType::Symbols => {
            let v: Vec<char> = vec!['s', 'y', 'm', 'b', 'o', 'l', 's'];
            let r = string_from_chars(v.as_slice());
            assert(r@ =~= spec_class_name(t));
            r
        },
    }
}

/// `name` placed under `root`.
pub fn join(root: &str, name: &str) -> (r: String)
    ensures
        r@ == spec_join(root@, name@),
{
    let mut v = chars_of(root);
    let n = chars_of(name);
    if v.len() > 0 && v[v.len() - 1] != '/' {
        v.push('/');
    }
    let mut i: usize = 0;
    let ghost base = v@;
    while i < n.len()
        invariant
            i <= n@.len(),
            n@ == name@,
            v@ == base + n@.take(i as int),
        decreases n@.len() - i,
    {
        v.push(n[i]);
        i = i + 1;
        assert(v@ =~= base + n@.take(i as int));
    }
    assert(n@.take(n@.len() as int) =~= n@);
    let r = string_from_chars(v.as_slice());
    assert(r@ =~= spec_join(root@, name@));
    r
}

/// The path of the directory or file that stands for class `t` under
/// `root`. The caller creates it.
pub fn create_dir_from_type(root: &str, t: CharType) -> (r: String)
    ensures
        r@ == spec_join(root@, spec_class_name(t)),
{
    let name = class_name(t);
    join(root, name.as_str())
}

/// The path of the directory named by the single character `c` under
/// `root`. The caller creates it.
pub fn create_dir2(root: &str, c: char) -> (r: String)
    ensures
        r@ == spec_join(root@, seq![c]),
{
    let v: Vec<char> = vec![c];
    let name = string_from_chars(v.as_slice());
    assert(name@ =~= seq![c]);
    join(root, name.as_str())
}

} // verus!
