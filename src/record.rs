//! Extraction of the password from one input line.
use vstd::prelude::*;
use crate::text::{chars_of, string_from_chars, lowercase, lower_of};

verus! {

/// The position of the last `:` in `s`, or -1 where there is none.
pub open spec fn last_colon(s: Seq<char>) -> int
    decreases s.len(),
{
    if s.len() == 0 {
        -1
    } else if s.last() == ':' {
        s.len() - 1
    } else {
        last_colon(s.drop_last())
    }
}

/// The password of a line: what follows its last `:`, or the lowercase of
/// the whole line where it has no `:`.
pub open spec fn spec_extract(line: Seq<char>) -> Seq<char> {
    let k = last_colon(line);
    if k >= 0 {
        line.subrange(k + 1, line.len() as int)
    } else {
        lower_of(line)
    }
}

proof fn lemma_last_colon(s: Seq<char>)
    ensures
        -1 <= last_colon(s) < s.len(),
        last_colon(s) >= 0 ==> s[last_colon(s)] == ':',
        forall|j: int| last_colon(s) < j < s.len() ==> s[j] != ':',
    decreases s.len(),
{
    if s.len() > 0 && s.last() != ':' {
        lemma_last_colon(s.drop_last());
        assert forall|j: int| last_colon(s) < j < s.len() implies s[j] != ':' by {
            if j < s.len() - 1 {
                assert(s[j] == s.drop_last()[j]);
            }
        }
    }
}

/// A line with a `:` gives exactly what follows its last `:`; a line
/// without one gives its own lowercase form.
pub proof fn lemma_extract(line: Seq<char>)
    ensures
        forall|k: int|
            0 <= k < line.len() && line[k] == ':' && (forall|j: int|
                k < j < line.len() ==> line[j] != ':') ==> spec_extract(line) == line.subrange(
                k + 1,
                line.len() as int,
            ),
        (forall|j: int| 0 <= j < line.len() ==> line[j] != ':') ==> spec_extract(line)
            == lower_of(line),
{
    lemma_last_colon(line);
    assert forall|k: int|
        0 <= k < line.len() && line[k] == ':' && (forall|j: int|
            k < j < line.len() ==> line[j] != ':') implies spec_extract(line) == line.subrange(
        k + 1,
        line.len() as int,
    ) by {
        if last_colon(line) < k {
        } else if last_colon(line) > k {
            assert(line[last_colon(line)] == ':');
        }
    }
}

/// The password of one input line.
pub fn extract_password(line: &str) -> (r: String)
    ensures
        r@ == spec_extract(line@),
{
    let v = chars_of(line);
    let mut i: usize = v.len();
    while i > 0 && v[i - 1] != ':'
        invariant
            i <= v@.len(),
            v@ == line@,
            forall|j: int| i <= j < v@.len() ==> v@[j] != ':',
        decreases i,
    {
        i = i - 1;
    }
    proof {
        lemma_extract(line@);
    }
    if i > 0 {
        let mut suffix: Vec<char> = Vec::new();
        let mut j: usize = i;
        while j < v.len()
            invariant
                i <= j <= v@.len(),
                suffix@ == v@.subrange(i as int, j as int),
            decreases v@.len() - j,
        {
            suffix.push(v[j]);
            j = j + 1;
            assert(suffix@ =~= v@.subrange(i as int, j as int));
        }
        string_from_chars(suffix.as_slice())
    } else {
        lowercase(line)
    }
}

/// The password of every line, in the order of the lines.
pub fn parse_passwords(lines: &Vec<String>) -> (r: Vec<String>)
    ensures
        r@.len() == lines@.len(),
        forall|i: int| 0 <= i < lines@.len() ==> #[trigger] r@[i]@ == spec_extract(lines@[i]@),
{
    let mut r: Vec<String> = Vec::new();
    let mut i: usize = 0;
    while i < lines.len()
        invariant
            i <= lines@.len(),
            r@.len() == i,
            forall|k: int| 0 <= k < i ==> #[trigger] r@[k]@ == spec_extract(lines@[k]@),
        decreases lines@.len() - i,
    {
        let p = extract_password(lines[i].as_str());
        r.push(p);
        i = i + 1;
    }
    r
}

} // verus!
