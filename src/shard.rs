//! Shard keys, the enumeration of every shard, and the table of per-shard
//! handles that is built once and then only read.
use vstd::prelude::*;
use crate::classify::{
    CharType, char_types, class_count, class_index, classify, create_dir_from_type, in_alphabet,
    lemma_class_index, lemma_classify_idempotent, spec_char_types, spec_class_name, spec_classify,
    spec_join, type_at,
};
use crate::text::{chars_of, fold_char, first_lower};

verus! {

/// The classes of the first three characters of a password.
#[derive(Debug, Clone, Copy, PartialEq, Eq, Hash, Structural)]
pub struct ShardKey {
    pub k1: CharType,
    pub k2: CharType,
    pub k3: CharType,
}

/// The number of shards.
pub open spec fn shard_count(digits: bool) -> nat {
    class_count(digits) * class_count(digits) * class_count(digits)
}

pub open spec fn key_in_alphabet(k: ShardKey, digits: bool) -> bool {
    in_alphabet(k.k1, digits) && in_alphabet(k.k2, digits) && in_alphabet(k.k3, digits)
}

/// The key of a password: the classes of its first three case-folded
/// characters, or none where it has fewer than three characters.
pub open spec fn spec_shard_key(p: Seq<char>, digits: bool) -> Option<ShardKey> {
    if p.len() >= 3 {
        Some(
            ShardKey {
                k1: spec_classify(first_lower(p[0]), digits),
                k2: spec_classify(first_lower(p[1]), digits),
                k3: spec_classify(first_lower(p[2]), digits),
            },
        )
    } else {
        None
    }
}

/// The position of a shard in the enumeration of all shards.
pub open spec fn key_index(k: ShardKey, digits: bool) -> int {
    let n = class_count(digits) as int;
    class_index(k.k1, digits) * n * n + class_index(k.k2, digits) * n + class_index(k.k3, digits)
}

/// The shard at position `i` of the enumeration.
pub open spec fn key_at(i: int, digits: bool) -> ShardKey {
    let n = class_count(digits) as int;
    ShardKey {
        k1: type_at(i / (n * n), digits),
        k2: type_at((i / n) % n, digits),
        k3: type_at(i % n, digits),
    }
}

/// The path of the file of shard `k` under `root`.
pub open spec fn spec_leaf_path(root: Seq<char>, k: ShardKey) -> Seq<char> {
    spec_join(
        spec_join(spec_join(root, spec_class_name(k.k1)), spec_class_name(k.k2)),
        spec_class_name(k.k3),
    )
}

/// The path of the directory of the first-level class at position `i`, or,
/// past the first `n` positions, of a second-level class.
pub open spec fn spec_dir_path(root: Seq<char>, i: int, digits: bool) -> Seq<char> {
    let n = class_count(digits) as int;
    if i < n {
        spec_join(root, spec_class_name(type_at(i, digits)))
    } else {
        spec_join(
            spec_join(root, spec_class_name(type_at((i - n) / n, digits))),
            spec_class_name(type_at((i - n) % n, digits)),
        )
    }
}

proof fn lemma_digits(i: int, n: int)
    requires
        n == 27 || n == 37,
        0 <= i < n * n * n,
    ensures
        0 <= i / (n * n) < n,
        0 <= (i / n) % n < n,
        0 <= i % n < n,
        (i / (n * n)) * n * n + ((i / n) % n) * n + i % n == i,
{
    if n == 27 {
        assert(0 <= i / (729 as int) < 27 && (i / (729 as int)) * 27 * 27 + ((i / (27 as int)) % (27 as int)) * 27 + i % (27 as int)
            == i) by (nonlinear_arith)
            requires
                0 <= i < 27 * 27 * 27,
        ;
    } else {
        assert(0 <= i / (1369 as int) < 37 && (i / (1369 as int)) * 37 * 37 + ((i / (37 as int)) % (37 as int)) * 37 + i % (37 as int)
            == i) by (nonlinear_arith)
            requires
                0 <= i < 37 * 37 * 37,
        ;
    }
}

proof fn lemma_undigits(a: int, b: int, c: int, n: int)
    requires
        n == 27 || n == 37,
        0 <= a < n,
        0 <= b < n,
        0 <= c < n,
    ensures
        0 <= a * n * n + b * n + c < n * n * n,
        (a * n * n + b * n + c) / (n * n) == a,
        ((a * n * n + b * n + c) / n) % n == b,
        (a * n * n + b * n + c) % n == c,
{
    if n == 27 {
        assert(0 <= a * 27 * 27 + b * 27 + c < 27 * 27 * 27 && (a * 27 * 27 + b * 27 + c) / (729 as int) == a
            && ((a * 27 * 27 + b * 27 + c) / (27 as int)) % (27 as int) == b && (a * 27 * 27 + b * 27 + c) % (27 as int) == c)
            by (nonlinear_arith)
            requires
                0 <= a < 27,
                0 <= b < 27,
                0 <= c < 27,
        ;
    } else {
        assert(0 <= a * 37 * 37 + b * 37 + c < 37 * 37 * 37 && (a * 37 * 37 + b * 37 + c) / (1369 as int) == a
            && ((a * 37 * 37 + b * 37 + c) / (37 as int)) % (37 as int) == b && (a * 37 * 37 + b * 37 + c) % (37 as int) == c)
            by (nonlinear_arith)
            requires
                0 <= a < 37,
                0 <= b < 37,
                0 <= c < 37,
        ;
    }
}

/// The enumeration of shards is a bijection between the positions
/// `0 .. |alphabet|^3` and the keys over the alphabet: there are exactly
/// `|alphabet|^3` shards, each at one position.
pub proof fn lemma_shard_enumeration(digits: bool)
    ensures
        shard_count(digits) == class_count(digits) * class_count(digits) * class_count(digits),
        forall|i: int|
            0 <= i < shard_count(digits) ==> {
                &&& key_in_alphabet(#[trigger] key_at(i, digits), digits)
                &&& key_index(key_at(i, digits), digits) == i
            },
        forall|k: ShardKey|
            #[trigger] key_in_alphabet(k, digits) ==> {
                &&& 0 <= key_index(k, digits) < shard_count(digits)
                &&& key_at(key_index(k, digits), digits) == k
            },
{
    let n = class_count(digits) as int;
    lemma_class_index(digits);
    assert forall|i: int| 0 <= i < shard_count(digits) implies {
        &&& key_in_alphabet(#[trigger] key_at(i, digits), digits)
        &&& key_index(key_at(i, digits), digits) == i
    } by {
        lemma_digits(i, n);
        assert(class_index(type_at(i / (n * n), digits), digits) == i / (n * n));
        assert(class_index(type_at((i / n) % n, digits), digits) == (i / n) % n);
        assert(class_index(type_at(i % n, digits), digits) == i % n);
    }
    assert forall|k: ShardKey| #[trigger] key_in_alphabet(k, digits) implies {
        &&& 0 <= key_index(k, digits) < shard_count(digits)
        &&& key_at(key_index(k, digits), digits) == k
    } by {
        assert(in_alphabet(k.k1, digits));
        assert(in_alphabet(k.k2, digits));
        assert(in_alphabet(k.k3, digits));
        lemma_undigits(
            class_index(k.k1, digits),
            class_index(k.k2, digits),
            class_index(k.k3, digits),
            n,
        );
    }
}

spec fn no_slash(s: Seq<char>) -> bool {
    forall|i: int| 0 <= i < s.len() ==> s[i] != '/'
}

proof fn lemma_split_last_slash(x: Seq<char>, n: Seq<char>, y: Seq<char>, m: Seq<char>)
    requires
        no_slash(n),
        no_slash(m),
        x + seq!['/'] + n == y + seq!['/'] + m,
    ensures
        x == y,
        n == m,
{
    let s = x + seq!['/'] + n;
    let t = y + seq!['/'] + m;
    if n.len() < m.len() {
        let i = s.len() - n.len() - 1;
        assert(s[i] == '/');
        assert(t[i] == m[i - y.len() - 1]);
    } else if m.len() < n.len() {
        let i = t.len() - m.len() - 1;
        assert(t[i] == '/');
        assert(s[i] == n[i - x.len() - 1]);
    }
    assert(x =~= s.subrange(0, x.len() as int));
    assert(y =~= t.subrange(0, y.len() as int));
    assert(n =~= s.subrange(x.len() as int + 1, s.len() as int));
    assert(m =~= t.subrange(y.len() as int + 1, t.len() as int));
}

proof fn lemma_class_name(t: CharType, u: CharType, digits: bool)
    requires
        in_alphabet(t, digits),
        in_alphabet(u, digits),
    ensures
        spec_class_name(t).len() > 0,
        no_slash(spec_class_name(t)),
        spec_class_name(t).last() != '/',
        spec_class_name(t) == spec_class_name(u) ==> t == u,
{
    if spec_class_name(t) == spec_class_name(u) {
        assert(spec_class_name(t).len() == spec_class_name(u).len());
        assert(spec_class_name(t)[0] == spec_class_name(u)[0]);
    }
}

/// Joining below a path whose last character is not `/` puts a `/` between.
proof fn lemma_join_below(x: Seq<char>, n: Seq<char>)
    requires
        x.len() > 0,
        x.last() != '/',
    ensures
        spec_join(x, n) == x + seq!['/'] + n,
{
}

proof fn lemma_join_same_root(root: Seq<char>, n: Seq<char>, m: Seq<char>)
    requires
        spec_join(root, n) == spec_join(root, m),
    ensures
        n == m,
{
    let p = if root.len() == 0 {
        root
    } else if root.last() == '/' {
        root
    } else {
        root + seq!['/']
    };
    assert(spec_join(root, n) =~= p + n);
    assert(spec_join(root, m) =~= p + m);
    assert(n =~= (p + n).subrange(p.len() as int, (p + n).len() as int));
    assert(m =~= (p + m).subrange(p.len() as int, (p + m).len() as int));
}

/// Distinct shards have distinct files: the path of a shard under a root
/// determines the shard.
pub proof fn lemma_leaf_path_injective(root: Seq<char>, k: ShardKey, j: ShardKey, digits: bool)
    requires
        key_in_alphabet(k, digits),
        key_in_alphabet(j, digits),
        spec_leaf_path(root, k) == spec_leaf_path(root, j),
    ensures
        k == j,
{
    lemma_class_name(k.k1, j.k1, digits);
    lemma_class_name(k.k2, j.k2, digits);
    lemma_class_name(k.k3, j.k3, digits);
    lemma_class_name(j.k1, k.k1, digits);
    lemma_class_name(j.k2, k.k2, digits);
    lemma_class_name(j.k3, k.k3, digits);
    let a1 = spec_join(root, spec_class_name(k.k1));
    let b1 = spec_join(root, spec_class_name(j.k1));
    let a2 = spec_join(a1, spec_class_name(k.k2));
    let b2 = spec_join(b1, spec_class_name(j.k2));
    assert(a1.len() > 0 && a1.last() == spec_class_name(k.k1).last());
    assert(b1.len() > 0 && b1.last() == spec_class_name(j.k1).last());
    lemma_join_below(a1, spec_class_name(k.k2));
    lemma_join_below(b1, spec_class_name(j.k2));
    assert(a2.last() == spec_class_name(k.k2).last());
    assert(b2.last() == spec_class_name(j.k2).last());
    lemma_join_below(a2, spec_class_name(k.k3));
    lemma_join_below(b2, spec_class_name(j.k3));
    lemma_split_last_slash(a2, spec_class_name(k.k3), b2, spec_class_name(j.k3));
    lemma_split_last_slash(a1, spec_class_name(k.k2), b1, spec_class_name(j.k2));
    lemma_join_same_root(root, spec_class_name(k.k1), spec_class_name(j.k1));
}

/// The files of the shard enumeration are pairwise distinct: building the
/// layout makes exactly `|alphabet|^3` files.
pub proof fn lemma_leaf_paths_distinct(root: Seq<char>, digits: bool)
    ensures
        forall|i: int, j: int|
            0 <= i < shard_count(digits) && 0 <= j < shard_count(digits) && i != j
                ==> #[trigger] spec_leaf_path(root, key_at(i, digits)) != #[trigger] spec_leaf_path(
                root,
                key_at(j, digits),
            ),
{
    lemma_shard_enumeration(digits);
    assert forall|i: int, j: int|
        0 <= i < shard_count(digits) && 0 <= j < shard_count(digits) && i != j implies #[trigger] spec_leaf_path(
        root,
        key_at(i, digits),
    ) != #[trigger] spec_leaf_path(root, key_at(j, digits)) by {
        if spec_leaf_path(root, key_at(i, digits)) == spec_leaf_path(root, key_at(j, digits)) {
            lemma_leaf_path_injective(root, key_at(i, digits), key_at(j, digits), digits);
            assert(key_index(key_at(i, digits), digits) == i);
            assert(key_index(key_at(j, digits), digits) == j);
        }
    }
}

/// A password of at least three characters has exactly one shard, over the
/// alphabet, fixed by its first three case-folded characters alone; a
/// shorter one has none.
pub proof fn lemma_one_shard(p: Seq<char>, q: Seq<char>, digits: bool)
    ensures
        p.len() < 3 ==> spec_shard_key(p, digits) is None,
        p.len() >= 3 ==> {
            let k = spec_shard_key(p, digits)->0;
            &&& key_in_alphabet(k, digits)
            &&& 0 <= key_index(k, digits) < shard_count(digits)
            &&& forall|i: int|
                0 <= i < shard_count(digits) ==> (#[trigger] key_at(i, digits) == k <==> i
                    == key_index(k, digits))
        },
        p.len() >= 3 && q.len() >= 3 && first_lower(p[0]) == first_lower(q[0]) && first_lower(p[1])
            == first_lower(q[1]) && first_lower(p[2]) == first_lower(q[2]) ==> spec_shard_key(
            p,
            digits,
        ) == spec_shard_key(q, digits),
{
    lemma_shard_enumeration(digits);
    if p.len() >= 3 {
        lemma_classify_idempotent(first_lower(p[0]), digits);
        lemma_classify_idempotent(first_lower(p[1]), digits);
        lemma_classify_idempotent(first_lower(p[2]), digits);
        let k = spec_shard_key(p, digits)->0;
        assert(key_in_alphabet(k, digits));
        assert forall|i: int| 0 <= i < shard_count(digits) implies (#[trigger] key_at(i, digits)
            == k <==> i == key_index(k, digits)) by {
            if key_at(i, digits) == k {
                assert(key_index(key_at(i, digits), digits) == i);
            }
        }
    }
}

/// The position of an enumerated class.
fn class_position(t: CharType, digits: bool) -> (r: usize)
    requires
        in_alphabet(t, digits),
    ensures
        r == class_index(t, digits),
{
    match t {
        CharType::AlphaNumeric(c) => if 'a' <= c && c <= 'z' {
            (c as u32 - 97) as usize
        } else {
            (c as u32 - 48 + 26) as usize
        },
        CharType::Symbols => if digits {
            36
        } else {
            26
        },
    }
}

/// The number of classes, as an executable value.
fn count_of_classes(digits: bool) -> (r: usize)
    ensures
        r == class_count(digits),
{
    if digits {
        37
    } else {
        27
    }
}

/// The key of a password, or `None` where it has fewer than three
/// characters and is dropped.
pub fn shard_key(password: &str, digits: bool) -> (r: Option<ShardKey>)
    ensures
        r == spec_shard_key(password@, digits),
{
    let v = chars_of(password);
    if v.len() >= 3 {
        let k1 = classify(fold_char(v[0]), digits);
        let k2 = classify(fold_char(v[1]), digits);
        let k3 = classify(fold_char(v[2]), digits);
        Some(ShardKey { k1, k2, k3 })
    } else {
        None
    }
}

/// The position of a key in the enumeration of all shards.
pub fn leaf_index(k: ShardKey, digits: bool) -> (r: usize)
    requires
        key_in_alphabet(k, digits),
    ensures
        r == key_index(k, digits),
        r < shard_count(digits),
{
    proof {
        lemma_shard_enumeration(digits);
    }
    let n = count_of_classes(digits);
    let a = class_position(k.k1, digits);
    let b = class_position(k.k2, digits);
    let c = class_position(k.k3, digits);
    proof {
        lemma_undigits(a as int, b as int, c as int, n as int);
    }
    a * n * n + b * n + c
}

/// The key at position `i` of the enumeration of all shards.
pub fn key_of_index(i: usize, digits: bool) -> (r: ShardKey)
    requires
        i < shard_count(digits),
    ensures
        r == key_at(i as int, digits),
{
    let n = count_of_classes(digits);
    let types = char_types(digits);
    proof {
        lemma_digits(i as int, n as int);
    }
    ShardKey { k1: types[i / (n * n)], k2: types[(i / n) % n], k3: types[i % n] }
}

/// The path of the file of shard `k` under `root`.
pub fn leaf_path(root: &str, k: ShardKey) -> (r: String)
    ensures
        r@ == spec_leaf_path(root@, k),
{
    let d1 = create_dir_from_type(root, k.k1);
    let d2 = create_dir_from_type(d1.as_str(), k.k2);
    create_dir_from_type(d2.as_str(), k.k3)
}

/// The paths of every shard file under `root`, in the order of the
/// enumeration of shards.
pub fn leaf_paths(root: &str, digits: bool) -> (r: Vec<String>)
    ensures
        r@.len() == shard_count(digits),
        forall|i: int|
            0 <= i < shard_count(digits) ==> #[trigger] r@[i]@ == spec_leaf_path(
                root@,
                key_at(i, digits),
            ),
{
    let n = count_of_classes(digits);
    let total = n * n * n;
    let mut r: Vec<String> = Vec::new();
    let mut i: usize = 0;
    while i < total
        invariant
            total == shard_count(digits),
            i <= total,
            r@.len() == i,
            forall|j: int|
                0 <= j < i ==> #[trigger] r@[j]@ == spec_leaf_path(root@, key_at(j, digits)),
        decreases total - i,
    {
        let k = key_of_index(i, digits);
        r.push(leaf_path(root, k));
        i = i + 1;
    }
    r
}

/// The directories that hold the shard files under `root`, parents first:
/// one per first-level class, then one per pair of first- and
/// second-level classes.
pub fn dir_paths(root: &str, digits: bool) -> (r: Vec<String>)
    ensures
        r@.len() == class_count(digits) + class_count(digits) * class_count(digits),
        forall|i: int|
            0 <= i < r@.len() ==> #[trigger] r@[i]@ == spec_dir_path(root@, i, digits),
{
    let n = count_of_classes(digits);
    let types = char_types(digits);
    let mut r: Vec<String> = Vec::new();
    let mut i: usize = 0;
    while i < n
        invariant
            n == class_count(digits),
            types@ == spec_char_types(digits),
            i <= n,
            r@.len() == i,
            forall|j: int| 0 <= j < i ==> #[trigger] r@[j]@ == spec_dir_path(root@, j, digits),
        decreases n - i,
    {
        r.push(create_dir_from_type(root, types[i]));
        i = i + 1;
    }
    let mut j: usize = 0;
    while j < n * n
        invariant
            n == class_count(digits),
            types@ == spec_char_types(digits),
            j <= n * n,
            r@.len() == n + j,
            forall|m: int| 0 <= m < n + j ==> #[trigger] r@[m]@ == spec_dir_path(root@, m, digits),
        decreases n * n - j,
    {
        proof {
            assert(0 <= j / n < n && 0 <= j % n < n) by (nonlinear_arith)
                requires
                    0 <= j < n * n,
                    n > 0,
            ;
            assert((n + j - n) as int == j as int);
        }
        let d1 = create_dir_from_type(root, types[j / n]);
        r.push(create_dir_from_type(d1.as_str(), types[j % n]));
        j = j + 1;
    }
    r
}

/// One handle per shard, in the order of the enumeration of shards. The
/// table is built once and then only read: what changes is the content
/// behind each handle, which the caller guards per shard.
pub struct FileMap<H> {
    digits: bool,
    files: Vec<H>,
}

impl<H> FileMap<H> {
    /// The handles, by position in the enumeration of shards.
    pub closed spec fn handles(&self) -> Seq<H> {
        self.files@
    }

    /// Whether digits are classes of their own in this table.
    pub closed spec fn uses_digits(&self) -> bool {
        self.digits
    }

    /// Every shard has its handle.
    pub open spec fn wf(&self) -> bool {
        self.handles().len() == shard_count(self.uses_digits())
    }

    /// Builds the table from one handle per shard, given in the order of
    /// `leaf_paths`; `None` where their number is not the number of shards.
    pub fn new(digits: bool, files: Vec<H>) -> (r: Option<Self>)
        ensures
            r is Some <==> files@.len() == shard_count(digits),
            r matches Some(m) ==> m.wf() && m.handles() == files@ && m.uses_digits() == digits,
    {
        let n = count_of_classes(digits);
        if files.len() == n * n * n {
            Some(FileMap { digits, files })
        } else {
            None
        }
    }

    /// Whether digits are classes of their own in this table.
    pub fn digits(&self) -> (r: bool)
        ensures
            r == self.uses_digits(),
    {
        self.digits
    }

    /// The number of handles.
    pub fn len(&self) -> (r: usize)
        ensures
            r == self.handles().len(),
    {
        self.files.len()
    }

    /// The handle of shard `k`.
    pub fn lookup(&self, k: ShardKey) -> (r: &H)
        requires
            self.wf(),
            key_in_alphabet(k, self.uses_digits()),
        ensures
            *r == self.handles()[key_index(k, self.uses_digits())],
    {
        let i = leaf_index(k, self.digits);
        &self.files[i]
    }

    /// The handle of the shard of three case-folded characters.
    pub fn get_file(&self, c1: char, c2: char, c3: char) -> (r: &H)
        requires
            self.wf(),
        ensures
            *r == self.handles()[key_index(
                ShardKey {
                    k1: spec_classify(c1, self.uses_digits()),
                    k2: spec_classify(c2, self.uses_digits()),
                    k3: spec_classify(c3, self.uses_digits()),
                },
                self.uses_digits(),
            )],
    {
        let k = ShardKey {
            k1: classify(c1, self.digits),
            k2: classify(c2, self.digits),
            k3: classify(c3, self.digits),
        };
        self.lookup(k)
    }

    /// The handle of the shard that `password` is written to, or `None`
    /// where the password is too short to have one.
    pub fn route(&self, password: &str) -> (r: Option<&H>)
        requires
            self.wf(),
        ensures
            match spec_shard_key(password@, self.uses_digits()) {
                None => r is None,
                Some(k) => r matches Some(h) && *h == self.handles()[key_index(
                    k,
                    self.uses_digits(),
                )],
            },
    {
        match shard_key(password, self.digits) {
            None => None,
            Some(k) => {
                proof {
                    lemma_one_shard(password@, password@, self.digits);
                }
                Some(self.lookup(k))
            },
        }
    }
}

} // verus!
