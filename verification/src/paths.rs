//! Byte-level path model.
//!
//! A path relative to some root is a sequence of name components, each a
//! byte string.  All decisions the archiver makes about paths (ordering,
//! prefix containment, equality) are defined here over mathematical
//! sequences, with executable counterparts proved against them.

use vstd::prelude::*;

verus! {

/// A path relative to a root directory: a list of name components.
///
/// Canonicalization (resolving symlinks, `..`, and absolute prefixes) is
/// the caller's concern; two paths are the same exactly when their
/// component lists are equal.
#[derive(Debug)]
pub struct RelPath {
    pub parts: Vec<Vec<u8>>,
}

impl View for RelPath {
    type V = Seq<Seq<u8>>;

    open spec fn view(&self) -> Seq<Seq<u8>> {
        Seq::new(self.parts@.len(), |i: int| self.parts@[i]@)
    }
}

/// Lexicographic order on byte strings: `a` is at most `b`.
pub open spec fn bytes_le(a: Seq<u8>, b: Seq<u8>) -> bool
    decreases a.len(),
{
    if a.len() == 0 {
        true
    } else if b.len() == 0 {
        false
    } else if a[0] < b[0] {
        true
    } else if a[0] > b[0] {
        false
    } else {
        bytes_le(a.skip(1), b.skip(1))
    }
}

/// Lexicographic order on component lists, ordering components by
/// [`bytes_le`]: `a` is at most `b`.
pub open spec fn path_le(a: Seq<Seq<u8>>, b: Seq<Seq<u8>>) -> bool
    decreases a.len(),
{
    if a.len() == 0 {
        true
    } else if b.len() == 0 {
        false
    } else if a[0] == b[0] {
        path_le(a.skip(1), b.skip(1))
    } else {
        bytes_le(a[0], b[0])
    }
}

/// `p` is a prefix of `q`: `q` names `p` itself or something below it.
pub open spec fn is_path_prefix(p: Seq<Seq<u8>>, q: Seq<Seq<u8>>) -> bool {
    p.len() <= q.len() && forall|i: int| 0 <= i < p.len() ==> q[i] == p[i]
}

/// The byte order relates every pair of byte strings.
pub proof fn lemma_bytes_le_total(a: Seq<u8>, b: Seq<u8>)
    ensures
        bytes_le(a, b) || bytes_le(b, a),
    decreases a.len(),
{
    if a.len() == 0 || b.len() == 0 {
    } else if a[0] == b[0] {
        lemma_bytes_le_total(a.skip(1), b.skip(1));
    }
}

/// The byte order is reflexive.
pub proof fn lemma_bytes_le_refl(a: Seq<u8>)
    ensures
        bytes_le(a, a),
    decreases a.len(),
{
    if a.len() > 0 {
        lemma_bytes_le_refl(a.skip(1));
    }
}

/// Mutually related byte strings are equal.
pub proof fn lemma_bytes_le_antisymmetric(a: Seq<u8>, b: Seq<u8>)
    requires
        bytes_le(a, b),
        bytes_le(b, a),
    ensures
        a == b,
    decreases a.len(),
{
    if a.len() == 0 {
        assert(b.len() == 0);
        assert(a =~= b);
    } else {
        assert(a[0] == b[0]);
        lemma_bytes_le_antisymmetric(a.skip(1), b.skip(1));
        assert(a =~= seq![a[0]] + a.skip(1));
        assert(b =~= seq![b[0]] + b.skip(1));
    }
}

/// The byte order is transitive.
pub proof fn lemma_bytes_le_transitive(a: Seq<u8>, b: Seq<u8>, c: Seq<u8>)
    requires
        bytes_le(a, b),
        bytes_le(b, c),
    ensures
        bytes_le(a, c),
    decreases a.len(),
{
    if a.len() == 0 || b.len() == 0 || c.len() == 0 {
    } else if a[0] == b[0] && b[0] == c[0] {
        lemma_bytes_le_transitive(a.skip(1), b.skip(1), c.skip(1));
    }
}

/// The path order relates every pair of paths.
pub proof fn lemma_path_le_total(a: Seq<Seq<u8>>, b: Seq<Seq<u8>>)
    ensures
        path_le(a, b) || path_le(b, a),
    decreases a.len(),
{
    if a.len() == 0 || b.len() == 0 {
    } else if a[0] == b[0] {
        lemma_path_le_total(a.skip(1), b.skip(1));
    } else {
        lemma_bytes_le_total(a[0], b[0]);
        if bytes_le(a[0], b[0]) && bytes_le(b[0], a[0]) {
            lemma_bytes_le_antisymmetric(a[0], b[0]);
        }
    }
}

/// Mutually related paths are equal.
pub proof fn lemma_path_le_antisymmetric(a: Seq<Seq<u8>>, b: Seq<Seq<u8>>)
    requires
        path_le(a, b),
        path_le(b, a),
    ensures
        a == b,
    decreases a.len(),
{
    if a.len() == 0 {
        assert(b.len() == 0);
        assert(a =~= b);
    } else {
        if a[0] != b[0] {
            lemma_bytes_le_antisymmetric(a[0], b[0]);
        }
        lemma_path_le_antisymmetric(a.skip(1), b.skip(1));
        assert(a =~= seq![a[0]] + a.skip(1));
        assert(b =~= seq![b[0]] + b.skip(1));
    }
}

/// The path order is transitive.
pub proof fn lemma_path_le_transitive(a: Seq<Seq<u8>>, b: Seq<Seq<u8>>, c: Seq<Seq<u8>>)
    requires
        path_le(a, b),
        path_le(b, c),
    ensures
        path_le(a, c),
    decreases a.len(),
{
    if a.len() == 0 || b.len() == 0 || c.len() == 0 {
    } else if a[0] == b[0] && b[0] == c[0] {
        lemma_path_le_transitive(a.skip(1), b.skip(1), c.skip(1));
    } else if a[0] == b[0] {
        // a and b share their head; b is decided against c on the head.
    } else if b[0] == c[0] {
    } else {
        lemma_bytes_le_transitive(a[0], b[0], c[0]);
        if a[0] == c[0] {
            lemma_bytes_le_antisymmetric(a[0], b[0]);
        }
    }
}

/// Byte strings sharing their first `i` bytes compare as their tails do.
proof fn lemma_bytes_le_common_prefix(a: Seq<u8>, b: Seq<u8>, i: int)
    requires
        0 <= i <= a.len(),
        i <= b.len(),
        forall|j: int| 0 <= j < i ==> a[j] == b[j],
    ensures
        bytes_le(a, b) == bytes_le(a.skip(i), b.skip(i)),
    decreases i,
{
    if i > 0 {
        assert(a.len() > 0 && b.len() > 0 && a[0] == b[0]);
        lemma_bytes_le_common_prefix(a.skip(1), b.skip(1), i - 1);
        assert(a.skip(1).skip(i - 1) =~= a.skip(i));
        assert(b.skip(1).skip(i - 1) =~= b.skip(i));
    } else {
        assert(a.skip(0) =~= a);
        assert(b.skip(0) =~= b);
    }
}

/// Paths sharing their first `i` components compare as their tails do.
proof fn lemma_path_le_common_prefix(a: Seq<Seq<u8>>, b: Seq<Seq<u8>>, i: int)
    requires
        0 <= i <= a.len(),
        i <= b.len(),
        forall|j: int| 0 <= j < i ==> a[j] == b[j],
    ensures
        path_le(a, b) == path_le(a.skip(i), b.skip(i)),
    decreases i,
{
    if i > 0 {
        assert(a.len() > 0 && b.len() > 0 && a[0] == b[0]);
        lemma_path_le_common_prefix(a.skip(1), b.skip(1), i - 1);
        assert(a.skip(1).skip(i - 1) =~= a.skip(i));
        assert(b.skip(1).skip(i - 1) =~= b.skip(i));
    } else {
        assert(a.skip(0) =~= a);
        assert(b.skip(0) =~= b);
    }
}

/// Compares two byte strings in lexicographic order.
pub fn bytes_le_exec(a: &Vec<u8>, b: &Vec<u8>) -> (r: bool)
    ensures
        r == bytes_le(a@, b@),
{
    let mut i: usize = 0;
    while i < a.len() && i < b.len() && a[i] == b[i]
        invariant
            0 <= i <= a.len(),
            i <= b.len(),
            forall|j: int| 0 <= j < i ==> a@[j] == b@[j],
        decreases a.len() - i,
    {
        i = i + 1;
    }
    proof {
        lemma_bytes_le_common_prefix(a@, b@, i as int);
    }
    if i == a.len() {
        true
    } else if i == b.len() {
        false
    } else {
        a[i] < b[i]
    }
}

/// Tests two byte strings for equality.
pub fn bytes_eq(a: &Vec<u8>, b: &Vec<u8>) -> (r: bool)
    ensures
        r == (a@ == b@),
{
    if a.len() != b.len() {
        return false;
    }
    let mut i: usize = 0;
    while i < a.len()
        invariant
            0 <= i <= a.len(),
            a.len() == b.len(),
            forall|j: int| 0 <= j < i ==> a@[j] == b@[j],
        decreases a.len() - i,
    {
        if a[i] != b[i] {
            return false;
        }
        i = i + 1;
    }
    proof {
        assert(a@ =~= b@);
    }
    true
}

/// Copies a byte string.
pub fn clone_bytes(v: &Vec<u8>) -> (r: Vec<u8>)
    ensures
        r@ == v@,
{
    let mut r: Vec<u8> = Vec::new();
    let mut i: usize = 0;
    while i < v.len()
        invariant
            0 <= i <= v.len(),
            r@ =~= v@.take(i as int),
        decreases v.len() - i,
    {
        r.push(v[i]);
        i = i + 1;
    }
    proof {
        assert(v@.take(v.len() as int) =~= v@);
    }
    r
}

/// Picks the newest of a list of candidate names: several files may
/// legitimately match one source pattern when a service reruns, and
/// versions in their names sort lexicographically, so the newest is the
/// greatest name in byte order.  `None` exactly when nothing matched.
pub fn newest_match(candidates: &Vec<Vec<u8>>) -> (r: Option<Vec<u8>>)
    ensures
        (r is Some) == (candidates@.len() > 0),
        r matches Some(m) ==> {
            &&& exists|i: int| 0 <= i < candidates@.len() && #[trigger] candidates@[i]@ == m@
            &&& forall|i: int|
                0 <= i < candidates@.len() ==> bytes_le(#[trigger] candidates@[i]@, m@)
        },
{
    if candidates.len() == 0 {
        return Option::None;
    }
    let mut best: usize = 0;
    let mut i: usize = 1;
    proof {
        lemma_bytes_le_refl(candidates@[0]@);
    }
    while i < candidates.len()
        invariant
            0 <= best < i <= candidates@.len(),
            forall|j: int|
                0 <= j < i ==> bytes_le(#[trigger] candidates@[j]@, candidates@[best as int]@),
        decreases candidates@.len() - i,
    {
        if !bytes_le_exec(&candidates[i], &candidates[best]) {
            proof {
                lemma_bytes_le_total(candidates@[i as int]@, candidates@[best as int]@);
                assert forall|j: int| 0 <= j < i + 1 implies bytes_le(
                    #[trigger] candidates@[j]@,
                    candidates@[i as int]@,
                ) by {
                    if j < i {
                        lemma_bytes_le_transitive(
                            candidates@[j]@,
                            candidates@[best as int]@,
                            candidates@[i as int]@,
                        );
                    } else {
                        lemma_bytes_le_refl(candidates@[i as int]@);
                    }
                }
            }
            best = i;
        }
        i = i + 1;
    }
    Option::Some(clone_bytes(&candidates[best]))
}

impl RelPath {
    /// The empty relative path, naming the root itself.
    pub fn empty() -> (r: RelPath)
        ensures
            r@ == Seq::<Seq<u8>>::empty(),
    {
        let r = RelPath { parts: Vec::new() };
        proof {
            assert(r@ =~= Seq::<Seq<u8>>::empty());
        }
        r
    }

    /// The number of components.
    pub fn depth(&self) -> (n: usize)
        ensures
            n == self@.len(),
    {
        self.parts.len()
    }

    /// Copies the path.
    pub fn duplicate(&self) -> (r: RelPath)
        ensures
            r@ == self@,
    {
        let mut parts: Vec<Vec<u8>> = Vec::new();
        let mut i: usize = 0;
        while i < self.parts.len()
            invariant
                0 <= i <= self.parts.len(),
                parts@.len() == i,
                forall|j: int| 0 <= j < i ==> parts@[j]@ == self@[j],
            decreases self.parts.len() - i,
        {
            parts.push(clone_bytes(&self.parts[i]));
            i = i + 1;
        }
        let r = RelPath { parts };
        proof {
            assert(r@ =~= self@);
        }
        r
    }

    /// Tests two paths for equality.
    pub fn path_eq(&self, other: &RelPath) -> (r: bool)
        ensures
            r == (self@ == other@),
    {
        if self.parts.len() != other.parts.len() {
            proof {
                assert(self@.len() != other@.len());
            }
            return false;
        }
        let mut i: usize = 0;
        while i < self.parts.len()
            invariant
                0 <= i <= self.parts.len(),
                self.parts.len() == other.parts.len(),
                forall|j: int| 0 <= j < i ==> self@[j] == other@[j],
        decreases self.parts.len() - i,
        {
            if !bytes_eq(&self.parts[i], &other.parts[i]) {
                proof {
                    assert(self@[i as int] != other@[i as int]);
                }
                return false;
            }
            i = i + 1;
        }
        proof {
            assert(self@ =~= other@);
        }
        true
    }

    /// Compares two paths in lexicographic order.
    pub fn path_le_exec(&self, other: &RelPath) -> (r: bool)
        ensures
            r == path_le(self@, other@),
    {
        let mut i: usize = 0;
        loop
            invariant
                0 <= i <= self.parts.len(),
                i <= other.parts.len(),
                forall|j: int| 0 <= j < i ==> self@[j] == other@[j],
            ensures
                (i == self.parts.len() || i == other.parts.len() || self@[i as int] != other@[i as int]),
                0 <= i <= self.parts.len(),
                i <= other.parts.len(),
                forall|j: int| 0 <= j < i ==> self@[j] == other@[j],
            decreases self.parts.len() - i,
        {
            if i == self.parts.len() || i == other.parts.len() {
                break ;
            }
            if !bytes_eq(&self.parts[i], &other.parts[i]) {
                break ;
            }
            i = i + 1;
        }
        proof {
            lemma_path_le_common_prefix(self@, other@, i as int);
        }
        if i == self.parts.len() {
            true
        } else if i == other.parts.len() {
            false
        } else {
            let r = bytes_le_exec(&self.parts[i], &other.parts[i]);
            proof {
                assert(self@.skip(i as int)[0] == self@[i as int]);
                assert(other@.skip(i as int)[0] == other@[i as int]);
            }
            r
        }
    }

    /// True iff `prefix` is a prefix of this path.
    pub fn starts_with(&self, prefix: &RelPath) -> (r: bool)
        ensures
            r == is_path_prefix(prefix@, self@),
    {
        if prefix.parts.len() > self.parts.len() {
            return false;
        }
        let mut i: usize = 0;
        while i < prefix.parts.len()
            invariant
                0 <= i <= prefix.parts.len(),
                prefix.parts.len() <= self.parts.len(),
                forall|j: int| 0 <= j < i ==> self@[j] == prefix@[j],
            decreases prefix.parts.len() - i,
        {
            if !bytes_eq(&self.parts[i], &prefix.parts[i]) {
                proof {
                    assert(self@[i as int] != prefix@[i as int]);
                }
                return false;
            }
            i = i + 1;
        }
        true
    }

    /// Concatenates two paths.
    pub fn concat(&self, tail: &RelPath) -> (r: RelPath)
        ensures
            r@ == self@ + tail@,
    {
        let mut r = self.duplicate();
        let mut i: usize = 0;
        while i < tail.parts.len()
            invariant
                0 <= i <= tail.parts.len(),
                r.parts@.len() == self@.len() + i,
                forall|j: int| 0 <= j < self@.len() ==> r.parts@[j]@ == self@[j],
                forall|j: int| 0 <= j < i ==> r.parts@[self@.len() + j]@ == tail@[j],
            decreases tail.parts.len() - i,
        {
            r.parts.push(clone_bytes(&tail.parts[i]));
            i = i + 1;
        }
        proof {
            assert(r@ =~= self@ + tail@);
        }
        r
    }

    /// The path without its first `n` components.
    pub fn skip_front(&self, n: usize) -> (r: RelPath)
        requires
            n <= self@.len(),
        ensures
            r@ == self@.skip(n as int),
    {
        let mut parts: Vec<Vec<u8>> = Vec::new();
        let mut i: usize = n;
        while i < self.parts.len()
            invariant
                n <= i <= self.parts.len(),
                parts@.len() == i - n,
                forall|j: int| 0 <= j < i - n ==> parts@[j]@ == self@[n + j],
            decreases self.parts.len() - i,
        {
            parts.push(clone_bytes(&self.parts[i]));
            i = i + 1;
        }
        let r = RelPath { parts };
        proof {
            assert(r@ =~= self@.skip(n as int));
        }
        r
    }
}

} // verus!
